//! The operations on results, aggregates and their iterators as free
//! functions that take the value they work on as their first argument.

use vstd::prelude::*;
use crate::result::{kind_bit, mask_of, RSAggregateResult, RSAggregateResultIter, RSIndexResult};

verus! {

/// Whether `result` is a union or an intersection.
#[allow(non_snake_case)]
pub fn IndexResult_IsAggregate(result: &RSIndexResult<'_>) -> (b: bool)
    ensures
        b == result.aggregate(),
{
    result.is_aggregate()
}

/// The child at `index`; `None` exactly where `index` is not below the
/// number of children.
#[allow(non_snake_case)]
pub fn AggregateResult_Get<'a>(agg: &RSAggregateResult<'a>, index: usize) -> (r: Option<
    &'a RSIndexResult<'a>,
>)
    ensures
        r is None <==> index >= agg.children().len(),
        r matches Some(c) ==> c == agg.children()[index as int],
{
    agg.get(index)
}

/// The number of children.
#[allow(non_snake_case)]
pub fn AggregateResult_NumChildren(agg: &RSAggregateResult<'_>) -> (n: usize)
    ensures
        n == agg.children().len(),
{
    agg.len()
}

/// The number of children for which there is room: never fewer than
/// there are.
#[allow(non_snake_case)]
pub fn AggregateResult_Capacity(agg: &RSAggregateResult<'_>) -> (n: usize)
    ensures
        n == agg.room(),
        agg.wf() ==> n >= agg.children().len(),
{
    agg.capacity()
}

/// The kinds that occur among the children.
#[allow(non_snake_case)]
pub fn AggregateResult_TypeMask(agg: &RSAggregateResult<'_>) -> (m: u32)
    ensures
        m == agg.mask(),
        agg.wf() ==> m == mask_of(agg.children()),
{
    proof {
        if agg.wf() {
            agg.lemma_mask_is_union();
        }
    }
    agg.type_mask()
}

/// Forgets the children and their kinds. The room stays, and so do the
/// children themselves, which the aggregate never owned.
#[allow(non_snake_case)]
pub fn AggregateResult_Reset<'a>(agg: &mut RSAggregateResult<'a>)
    ensures
        final(agg).wf(),
        final(agg).children() == Seq::<&'a RSIndexResult<'a>>::empty(),
        final(agg).mask() == 0,
        final(agg).room() == old(agg).room(),
{
    agg.reset();
}

/// An aggregate without children, with room for `cap` of them.
#[allow(non_snake_case)]
pub fn AggregateResult_New<'a>(cap: usize) -> (agg: RSAggregateResult<'a>)
    ensures
        agg.wf(),
        agg.children() == Seq::<&'a RSIndexResult<'a>>::empty(),
        agg.mask() == 0,
        agg.room() == cap,
{
    RSAggregateResult::with_capacity(cap)
}

/// Gives up the aggregate and its list. The children are not touched.
#[allow(non_snake_case)]
pub fn AggregateResult_Free(agg: RSAggregateResult<'_>) {
    let _ = agg;
}

/// Adds `child` to `parent` where `parent` is an aggregate: the child goes
/// behind the others, the parent takes the child's document, its field mask
/// takes in the child's and its type mask the child's kind. A parent that
/// is no aggregate stays exactly as it is.
#[allow(non_snake_case)]
pub fn AggregateResult_AddChild<'a>(parent: &mut RSIndexResult<'a>, child: &'a RSIndexResult<'a>)
    requires
        old(parent).wf(),
        old(parent).children().len() < usize::MAX,
    ensures
        final(parent).wf(),
        !old(parent).aggregate() ==> *final(parent) == *old(parent),
        old(parent).aggregate() ==> {
            &&& final(parent).children() == old(parent).children().push(child)
            &&& final(parent).mask() == old(parent).mask() | kind_bit(child.data)
            &&& final(parent).mask() & kind_bit(child.data) != 0
            &&& final(parent).doc_id == child.doc_id
            &&& final(parent).field_mask == old(parent).field_mask | child.field_mask
            &&& final(parent).field_mask & child.field_mask == child.field_mask
            &&& final(parent).freq == old(parent).freq
            &&& (final(parent).data is Union <==> old(parent).data is Union)
            &&& final(parent).aggregate()
        },
{
    let ghost bit: u32 = kind_bit(child.data);
    let ghost before: u32 = parent.mask();
    let ghost fields: u128 = parent.field_mask;
    let ghost added: u128 = child.field_mask;
    parent.push(child);
    proof {
        assert(bit != 0 ==> (before | bit) & bit != 0) by (bit_vector);
        assert((fields | added) & added == added) by (bit_vector);
    }
}

/// A pass over the children of `agg` from the first on.
#[allow(non_snake_case)]
pub fn AggregateResult_Iter<'b, 'a>(agg: &'b RSAggregateResult<'a>) -> (it: RSAggregateResultIter<
    'b,
    'a,
>)
    ensures
        it.remaining() == agg.children(),
{
    agg.iter()
}

/// Yields the next child of the pass, or `None` once every child has been
/// yielded: the pass gives each child once, in insertion order, and then
/// ends.
#[allow(non_snake_case)]
pub fn AggregateResultIter_Next<'b, 'a>(iter: &mut RSAggregateResultIter<'b, 'a>) -> (r: Option<
    &'a RSIndexResult<'a>,
>)
    ensures
        old(iter).remaining().len() == 0 ==> {
            &&& r is None
            &&& final(iter).remaining() == old(iter).remaining()
        },
        old(iter).remaining().len() > 0 ==> {
            &&& r == Some(old(iter).remaining()[0])
            &&& final(iter).remaining() == old(iter).remaining().skip(1)
        },
{
    iter.next()
}

/// Gives up the pass. The aggregate is not touched.
#[allow(non_snake_case)]
pub fn AggregateResultIter_Free(iter: RSAggregateResultIter<'_, '_>) {
    let _ = iter;
}

} // verus!
