//! The offset vector of a term record: a view of bytes that hold term
//! positions.
//!
//! By default the bytes are borrowed from whoever made them. Only
//! [`RSOffsetVector_CopyData`] gives a vector bytes of its own, and
//! [`RSOffsetVector_FreeData`] takes them away again.

use vstd::prelude::*;
use vstd::slice::slice_subrange;

verus! {

/// The bytes of a term's offsets. A vector without bytes has no data at
/// all: the variants that hold bytes hold at least one.
#[derive(Clone, Debug, PartialEq, Eq)]
pub enum RSOffsetVector<'a> {
    /// No data, length zero.
    Empty,
    /// Bytes that live elsewhere.
    Borrowed(&'a [u8]),
    /// Bytes that the vector holds itself, made by a deep copy.
    Owned(Vec<u8>),
}

impl<'a> RSOffsetVector<'a> {
    /// The bytes in view.
    pub open spec fn bytes(&self) -> Seq<u8> {
        match self {
            RSOffsetVector::Empty => Seq::empty(),
            RSOffsetVector::Borrowed(s) => s@,
            RSOffsetVector::Owned(v) => v@,
        }
    }

    /// Whether the vector holds bytes of its own.
    pub open spec fn is_owned(&self) -> bool {
        self is Owned
    }

    /// The length is zero exactly where there is no data, and fits 32 bits.
    pub open spec fn wf(&self) -> bool {
        &&& self.bytes().len() <= u32::MAX
        &&& self.bytes().len() == 0 <==> self is Empty
    }
}

/// The vector that a deep copy of `src` leaves in the destination: the
/// same bytes, owned where there are any.
pub open spec fn copied(src: Seq<u8>) -> (Seq<u8>, bool) {
    (src, src.len() > 0)
}

/// The vector that freeing leaves, whatever was there.
pub open spec fn freed(v: (Seq<u8>, bool)) -> (Seq<u8>, bool) {
    (Seq::empty(), false)
}

/// Freeing a deep copy leaves the destination without data and with
/// length zero, whatever was copied.
pub proof fn lemma_copy_then_free(src: Seq<u8>)
    ensures
        freed(copied(src)) == (Seq::<u8>::empty(), false),
{
}

/// The data in view and its length; no data where the length is zero.
#[allow(non_snake_case)]
pub fn RSOffsetVector_GetData<'b>(offsets: &'b RSOffsetVector<'_>) -> (r: (Option<&'b [u8]>, u32))
    requires
        offsets.wf(),
    ensures
        r.1 == offsets.bytes().len(),
        r.0 is None <==> r.1 == 0,
        r.0 matches Some(d) ==> d@ == offsets.bytes(),
{
    match offsets {
        RSOffsetVector::Empty => (None, 0),
        RSOffsetVector::Borrowed(s) => (Some(*s), s.len() as u32),
        RSOffsetVector::Owned(v) => (Some(v.as_slice()), v.len() as u32),
    }
}

/// Points the vector at the first `len` bytes of `data`, which it borrows.
/// Without data the length must be zero; with a length of zero the vector
/// has no data.
#[allow(non_snake_case)]
pub fn RSOffsetVector_SetData<'a>(
    offsets: &mut RSOffsetVector<'a>,
    data: Option<&'a [u8]>,
    len: u32,
)
    requires
        data is None ==> len == 0,
        data matches Some(d) ==> len <= d@.len(),
    ensures
        final(offsets).wf(),
        !final(offsets).is_owned(),
        final(offsets).bytes().len() == len,
        data matches Some(d) ==> final(offsets).bytes() == d@.subrange(0, len as int),
{
    match data {
        Some(d) => {
            if len == 0 {
                *offsets = RSOffsetVector::Empty;
            } else {
                *offsets = RSOffsetVector::Borrowed(slice_subrange(d, 0, len as usize));
            }
        },
        None => {
            *offsets = RSOffsetVector::Empty;
        },
    }
}

/// Releases the data of the vector and leaves it without data, with
/// length zero.
#[allow(non_snake_case)]
pub fn RSOffsetVector_FreeData(offsets: &mut RSOffsetVector<'_>)
    ensures
        *final(offsets) == RSOffsetVector::Empty,
        (final(offsets).bytes(), final(offsets).is_owned()) == freed(
            (old(offsets).bytes(), old(offsets).is_owned()),
        ),
{
    *offsets = RSOffsetVector::Empty;
}

/// Gives `dest` a copy of its own of the bytes of `src`; no data where
/// `src` has none. What `dest` held before is dropped.
#[allow(non_snake_case)]
pub fn RSOffsetVector_CopyData(dest: &mut RSOffsetVector<'_>, src: &RSOffsetVector<'_>)
    requires
        src.wf(),
    ensures
        final(dest).wf(),
        (final(dest).bytes(), final(dest).is_owned()) == copied(src.bytes()),
{
    let (data, len) = RSOffsetVector_GetData(src);
    match data {
        None => {
            *dest = RSOffsetVector::Empty;
        },
        Some(d) => {
            let mut buf: Vec<u8> = Vec::with_capacity(len as usize);
            let mut i: usize = 0;
            while i < d.len()
                invariant
                    i <= d@.len(),
                    buf@ == d@.subrange(0, i as int),
                decreases d@.len() - i,
            {
                buf.push(d[i]);
                i = i + 1;
                assert(buf@ =~= d@.subrange(0, i as int));
            }
            assert(buf@ =~= d@);
            *dest = RSOffsetVector::Owned(buf);
        },
    }
}

/// The number of bytes in view.
#[allow(non_snake_case)]
pub fn RSOffsetVector_Len(offsets: &RSOffsetVector<'_>) -> (len: u32)
    requires
        offsets.wf(),
    ensures
        len == offsets.bytes().len(),
{
    match offsets {
        RSOffsetVector::Empty => 0,
        RSOffsetVector::Borrowed(s) => s.len() as u32,
        RSOffsetVector::Owned(v) => v.len() as u32,
    }
}

} // verus!
