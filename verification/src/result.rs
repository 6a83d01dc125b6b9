//! Index results: a leaf match or an aggregate of child matches.
//!
//! An aggregate owns the list of its children, not the children: they are
//! shared references that the caller keeps alive.

use vstd::prelude::*;
use crate::offsets::RSOffsetVector;

verus! {

/// The bit of a union in a type mask.
pub const RESULT_UNION: u32 = 0x1;

/// The bit of an intersection in a type mask.
pub const RESULT_INTERSECTION: u32 = 0x2;

/// The bit of a term in a type mask.
pub const RESULT_TERM: u32 = 0x4;

/// The bit of a virtual result in a type mask.
pub const RESULT_VIRTUAL: u32 = 0x8;

/// The bit of a numeric result in a type mask.
pub const RESULT_NUMERIC: u32 = 0x10;

/// The bit of a metric result in a type mask.
pub const RESULT_METRIC: u32 = 0x20;

/// The field mask that names every field.
pub const FIELD_MASK_ALL: u128 = 0xFFFF_FFFF_FFFF_FFFF_FFFF_FFFF_FFFF_FFFF;

/// The children of an aggregate, in the order in which they were added,
/// and the kinds that occur among them.
#[derive(Clone, Debug, PartialEq, Eq)]
pub struct RSAggregateResult<'a> {
    records: Vec<&'a RSIndexResult<'a>>,
    cap: usize,
    type_mask: u32,
}

/// What a result holds besides the fields that every result has.
#[derive(Clone, Debug, PartialEq, Eq)]
pub enum RSResultData<'a> {
    /// A union of child results.
    Union(RSAggregateResult<'a>),
    /// An intersection of child results.
    Intersection(RSAggregateResult<'a>),
    /// A term, with the positions at which it occurs.
    Term(RSOffsetVector<'a>),
    /// A placeholder without payload.
    Virtual,
    /// A number, as the bits of a 64-bit IEEE-754 float.
    Numeric(u64),
    /// A score, as the bits of a 64-bit IEEE-754 float.
    Metric(u64),
}

/// One match of a document.
#[derive(Clone, Debug, PartialEq, Eq)]
pub struct RSIndexResult<'a> {
    /// The document that matched.
    pub doc_id: u64,
    /// The fields in which it matched; for an aggregate, those of all its
    /// children.
    pub field_mask: u128,
    /// How often the term occurs in the document.
    pub freq: u32,
    /// The payload.
    pub data: RSResultData<'a>,
}

/// A single pass over the children of an aggregate, in insertion order.
#[derive(Debug)]
pub struct RSAggregateResultIter<'b, 'a> {
    agg: &'b RSAggregateResult<'a>,
    index: usize,
}

/// The bit that stands for the kind of `data` in a type mask.
pub open spec fn kind_bit(data: RSResultData<'_>) -> u32 {
    match data {
        RSResultData::Union(_) => RESULT_UNION,
        RSResultData::Intersection(_) => RESULT_INTERSECTION,
        RSResultData::Term(_) => RESULT_TERM,
        RSResultData::Virtual => RESULT_VIRTUAL,
        RSResultData::Numeric(_) => RESULT_NUMERIC,
        RSResultData::Metric(_) => RESULT_METRIC,
    }
}

/// The union of the kinds of `children`.
pub open spec fn mask_of<'a>(children: Seq<&'a RSIndexResult<'a>>) -> u32
    decreases children.len(),
{
    if children.len() == 0 {
        0
    } else {
        mask_of(children.drop_last()) | kind_bit(children.last().data)
    }
}

/// The children and the type mask of an aggregate that was reset and then
/// given `added`, child by child: a reset leaves no children and no kinds,
/// and each child goes behind the others and adds its kind.
pub open spec fn replayed<'a>(added: Seq<&'a RSIndexResult<'a>>) -> (
    Seq<&'a RSIndexResult<'a>>,
    u32,
)
    decreases added.len(),
{
    if added.len() == 0 {
        (Seq::empty(), 0)
    } else {
        let before = replayed(added.drop_last());
        (before.0.push(added.last()), before.1 | kind_bit(added.last().data))
    }
}

/// An aggregate that is reset and then given a sequence of children holds
/// exactly those children, in that order, and its type mask is the union
/// of their kinds: whatever it held before the reset, the same sequence
/// gives the same children, the same count and the same type mask.
pub proof fn lemma_replayed<'a>(added: Seq<&'a RSIndexResult<'a>>)
    ensures
        replayed(added).0 == added,
        replayed(added).0.len() == added.len(),
        replayed(added).1 == mask_of(added),
    decreases added.len(),
{
    if added.len() > 0 {
        lemma_replayed(added.drop_last());
        assert(added.drop_last().push(added.last()) =~= added);
    } else {
        assert(replayed(added).0 =~= added);
    }
}

/// The growth of a full child list: twice its capacity, at least one.
pub open spec fn grown(cap: usize) -> usize {
    if cap == 0 {
        1
    } else if cap > usize::MAX / 2 {
        usize::MAX
    } else {
        (cap * 2) as usize
    }
}

impl<'a> RSAggregateResult<'a> {
    /// The children, in insertion order.
    pub closed spec fn children(&self) -> Seq<&'a RSIndexResult<'a>> {
        self.records@
    }

    /// The kinds that occur among the children.
    pub closed spec fn mask(&self) -> u32 {
        self.type_mask
    }

    /// The number of children for which there is room.
    pub closed spec fn room(&self) -> usize {
        self.cap
    }

    /// There is room for the children that are there, and the type mask
    /// is the union of their kinds.
    pub closed spec fn wf(&self) -> bool {
        &&& self.records@.len() <= self.cap
        &&& self.type_mask == mask_of(self.records@)
    }

    /// The type mask of an aggregate is exactly the union of the kinds of
    /// its children, and there is room for all of them.
    pub proof fn lemma_mask_is_union(&self)
        requires
            self.wf(),
        ensures
            self.mask() == mask_of(self.children()),
            self.children().len() <= self.room(),
    {
    }

    /// An aggregate without children, with room for `cap` of them.
    pub fn with_capacity(cap: usize) -> (agg: Self)
        ensures
            agg.wf(),
            agg.children() == Seq::<&'a RSIndexResult<'a>>::empty(),
            agg.mask() == 0,
            agg.room() == cap,
    {
        RSAggregateResult { records: Vec::with_capacity(cap), cap, type_mask: 0 }
    }

    /// The number of children.
    pub fn len(&self) -> (n: usize)
        ensures
            n == self.children().len(),
    {
        self.records.len()
    }

    /// The number of children for which there is room.
    pub fn capacity(&self) -> (n: usize)
        ensures
            n == self.room(),
            self.wf() ==> n >= self.children().len(),
    {
        self.cap
    }

    /// The kinds that occur among the children.
    pub fn type_mask(&self) -> (m: u32)
        ensures
            m == self.mask(),
    {
        self.type_mask
    }

    /// The child at `index`, if there is one.
    pub fn get(&self, index: usize) -> (r: Option<&'a RSIndexResult<'a>>)
        ensures
            r is None <==> index >= self.children().len(),
            r matches Some(c) ==> c == self.children()[index as int],
    {
        if index < self.records.len() {
            Some(self.records[index])
        } else {
            None
        }
    }

    /// Forgets the children and their kinds; the room stays.
    pub fn reset(&mut self)
        ensures
            final(self).wf(),
            final(self).children() == Seq::<&'a RSIndexResult<'a>>::empty(),
            final(self).mask() == 0,
            final(self).room() == old(self).room(),
    {
        self.records.clear();
        self.type_mask = 0;
    }

    /// Adds `child` behind the others and notes its kind. A full list
    /// grows first.
    pub fn push(&mut self, child: &'a RSIndexResult<'a>)
        requires
            old(self).wf(),
            old(self).children().len() < usize::MAX,
        ensures
            final(self).wf(),
            final(self).children() == old(self).children().push(child),
            final(self).mask() == old(self).mask() | kind_bit(child.data),
            final(self).mask() == mask_of(final(self).children()),
            final(self).room() == if old(self).children().len() < old(self).room() {
                old(self).room()
            } else {
                grown(old(self).room())
            },
    {
        let n: usize = self.records.len();
        if n >= self.cap {
            let wider: usize = if self.cap == 0 {
                1
            } else if self.cap > usize::MAX / 2 {
                usize::MAX
            } else {
                self.cap * 2
            };
            self.records.reserve(wider - n);
            self.cap = wider;
        }
        self.records.push(child);
        self.type_mask = self.type_mask | child.kind();
        assert(self.records@.drop_last() =~= old(self).records@);
    }

    /// A pass over the children from the first on.
    pub fn iter<'b>(&'b self) -> (it: RSAggregateResultIter<'b, 'a>)
        ensures
            it.remaining() == self.children(),
    {
        let it = RSAggregateResultIter { agg: self, index: 0 };
        assert(it.remaining() =~= self.children());
        it
    }
}

impl<'b, 'a> RSAggregateResultIter<'b, 'a> {
    /// The children that the pass has yet to yield, in order.
    pub closed spec fn remaining(&self) -> Seq<&'a RSIndexResult<'a>> {
        if self.index <= self.agg.records@.len() {
            self.agg.records@.skip(self.index as int)
        } else {
            Seq::empty()
        }
    }

    /// Yields the next child, or `None` once all have been yielded.
    pub fn next(&mut self) -> (r: Option<&'a RSIndexResult<'a>>)
        ensures
            old(self).remaining().len() == 0 ==> {
                &&& r is None
                &&& final(self).remaining() == old(self).remaining()
            },
            old(self).remaining().len() > 0 ==> {
                &&& r == Some(old(self).remaining()[0])
                &&& final(self).remaining() == old(self).remaining().skip(1)
            },
    {
        if self.index < self.agg.records.len() {
            let c = self.agg.records[self.index];
            self.index = self.index + 1;
            assert(self.remaining() =~= old(self).remaining().skip(1));
            Some(c)
        } else {
            None
        }
    }

    /// Yields all the children that are left, in order, and ends the pass.
    pub fn rest(&mut self) -> (children: Vec<&'a RSIndexResult<'a>>)
        ensures
            children@ == old(self).remaining(),
            final(self).remaining().len() == 0,
    {
        let mut children: Vec<&'a RSIndexResult<'a>> = Vec::new();
        loop
            invariant
                children@ + self.remaining() == old(self).remaining(),
            decreases self.remaining().len(),
        {
            let ghost left = self.remaining();
            match self.next() {
                Some(child) => {
                    children.push(child);
                    assert(children@ + self.remaining() =~= old(self).remaining()) by {
                        assert(left =~= seq![left[0]] + left.skip(1));
                    }
                },
                None => {
                    assert(children@ =~= old(self).remaining());
                    return children;
                },
            }
        }
    }
}

impl<'a> RSIndexResult<'a> {
    /// The aggregate of a union or an intersection has room for its
    /// children.
    pub open spec fn wf(&self) -> bool {
        match self.data {
            RSResultData::Union(agg) => agg.wf(),
            RSResultData::Intersection(agg) => agg.wf(),
            _ => true,
        }
    }

    /// Whether the result is a union or an intersection.
    pub open spec fn aggregate(&self) -> bool {
        self.data is Union || self.data is Intersection
    }

    /// The children of an aggregate; none for a leaf.
    pub open spec fn children(&self) -> Seq<&'a RSIndexResult<'a>> {
        match self.data {
            RSResultData::Union(agg) => agg.children(),
            RSResultData::Intersection(agg) => agg.children(),
            _ => Seq::empty(),
        }
    }

    /// The kinds among the children of an aggregate; none for a leaf.
    pub open spec fn mask(&self) -> u32 {
        match self.data {
            RSResultData::Union(agg) => agg.mask(),
            RSResultData::Intersection(agg) => agg.mask(),
            _ => 0,
        }
    }

    /// A term without offsets, in no field, for document 0.
    pub fn term() -> (r: Self)
        ensures
            r == (RSIndexResult {
                doc_id: 0,
                field_mask: 0,
                freq: 0,
                data: RSResultData::Term(RSOffsetVector::Empty),
            }),
    {
        RSIndexResult {
            doc_id: 0,
            field_mask: 0,
            freq: 0,
            data: RSResultData::Term(RSOffsetVector::Empty),
        }
    }

    /// A virtual result for document 0.
    pub fn virt() -> (r: Self)
        ensures
            r == (RSIndexResult { doc_id: 0, field_mask: 0, freq: 0, data: RSResultData::Virtual }),
    {
        RSIndexResult { doc_id: 0, field_mask: 0, freq: 0, data: RSResultData::Virtual }
    }

    /// A numeric result for document 0, for the number with the bits
    /// `value`: it counts once, in every field.
    pub fn numeric(value: u64) -> (r: Self)
        ensures
            r == (RSIndexResult {
                doc_id: 0,
                field_mask: FIELD_MASK_ALL,
                freq: 1,
                data: RSResultData::Numeric(value),
            }),
    {
        RSIndexResult {
            doc_id: 0,
            field_mask: FIELD_MASK_ALL,
            freq: 1,
            data: RSResultData::Numeric(value),
        }
    }

    /// A metric result for document 0, for the score with the bits
    /// `value`: it counts once, in every field.
    pub fn metric(value: u64) -> (r: Self)
        ensures
            r == (RSIndexResult {
                doc_id: 0,
                field_mask: FIELD_MASK_ALL,
                freq: 1,
                data: RSResultData::Metric(value),
            }),
    {
        RSIndexResult {
            doc_id: 0,
            field_mask: FIELD_MASK_ALL,
            freq: 1,
            data: RSResultData::Metric(value),
        }
    }

    /// A union without children, with room for `cap` of them.
    pub fn union(cap: usize) -> (r: Self)
        ensures
            r.wf(),
            r.data is Union,
            r.children().len() == 0,
            r.mask() == 0,
            r.doc_id == 0 && r.field_mask == 0 && r.freq == 0,
            r.data->Union_0.room() == cap,
    {
        RSIndexResult {
            doc_id: 0,
            field_mask: 0,
            freq: 0,
            data: RSResultData::Union(RSAggregateResult::with_capacity(cap)),
        }
    }

    /// An intersection without children, with room for `cap` of them.
    pub fn intersection(cap: usize) -> (r: Self)
        ensures
            r.wf(),
            r.data is Intersection,
            r.children().len() == 0,
            r.mask() == 0,
            r.doc_id == 0 && r.field_mask == 0 && r.freq == 0,
            r.data->Intersection_0.room() == cap,
    {
        RSIndexResult {
            doc_id: 0,
            field_mask: 0,
            freq: 0,
            data: RSResultData::Intersection(RSAggregateResult::with_capacity(cap)),
        }
    }

    /// The same result for document `doc_id`.
    pub fn doc_id(self, doc_id: u64) -> (r: Self)
        ensures
            r == (RSIndexResult { doc_id, ..self }),
    {
        RSIndexResult { doc_id, ..self }
    }

    /// The same result in the fields of `field_mask`.
    pub fn field_mask(self, field_mask: u128) -> (r: Self)
        ensures
            r == (RSIndexResult { field_mask, ..self }),
    {
        RSIndexResult { field_mask, ..self }
    }

    /// The same result with the frequency `freq`.
    pub fn frequency(self, freq: u32) -> (r: Self)
        ensures
            r == (RSIndexResult { freq, ..self }),
    {
        RSIndexResult { freq, ..self }
    }

    /// The bit that stands for the kind of the result in a type mask.
    pub fn kind(&self) -> (bit: u32)
        ensures
            bit == kind_bit(self.data),
            bit != 0,
    {
        match &self.data {
            RSResultData::Union(_) => RESULT_UNION,
            RSResultData::Intersection(_) => RESULT_INTERSECTION,
            RSResultData::Term(_) => RESULT_TERM,
            RSResultData::Virtual => RESULT_VIRTUAL,
            RSResultData::Numeric(_) => RESULT_NUMERIC,
            RSResultData::Metric(_) => RESULT_METRIC,
        }
    }

    /// Whether the result is a union or an intersection.
    pub fn is_aggregate(&self) -> (b: bool)
        ensures
            b == self.aggregate(),
    {
        match &self.data {
            RSResultData::Union(_) => true,
            RSResultData::Intersection(_) => true,
            _ => false,
        }
    }

    /// Adds `child` to an aggregate: the child goes behind the others, the
    /// aggregate takes the child's document, its field mask takes in the
    /// child's and its type mask the child's kind. A leaf stays as it is.
    pub fn push(&mut self, child: &'a RSIndexResult<'a>)
        requires
            old(self).wf(),
            old(self).children().len() < usize::MAX,
        ensures
            final(self).wf(),
            !old(self).aggregate() ==> *final(self) == *old(self),
            old(self).aggregate() ==> {
                &&& final(self).children() == old(self).children().push(child)
                &&& final(self).mask() == old(self).mask() | kind_bit(child.data)
                &&& final(self).doc_id == child.doc_id
                &&& final(self).field_mask == old(self).field_mask | child.field_mask
                &&& final(self).freq == old(self).freq
                &&& (final(self).data is Union <==> old(self).data is Union)
                &&& final(self).aggregate()
            },
    {
        match &mut self.data {
            RSResultData::Union(agg) => {
                agg.push(child);
            },
            RSResultData::Intersection(agg) => {
                agg.push(child);
            },
            _ => {
                return ;
            },
        }
        self.doc_id = child.doc_id;
        self.field_mask = self.field_mask | child.field_mask;
    }
}

} // verus!
