//! The 32-byte aligned vectors of `aligned_vec` that hold the index's
//! centroids and quantized blocks, with the contracts this crate relies on.
use aligned_vec::{AVec, ConstAlign};
use vstd::prelude::*;

verus! {

/// A 32-byte aligned vector (`aligned_vec::AVec<T, ConstAlign<32>>`), held
/// in a private field and reached only through the functions below: its
/// items (`i16_items`, `u32_items`) and the capacity it was created with.
#[verifier::external_body]
#[verifier::reject_recursive_types(T)]
pub struct Aligned32<T> {
    inner: AVec<T, ConstAlign<32>>,
}

/// The items of an aligned vector of quantized block values.
pub uninterp spec fn i16_items(v: Aligned32<i16>) -> Seq<i16>;

/// The capacity an aligned vector of quantized block values was created with.
pub uninterp spec fn i16_capacity(v: Aligned32<i16>) -> nat;

/// The items of an aligned vector of 32-bit words (centroid bit patterns).
pub uninterp spec fn u32_items(v: Aligned32<u32>) -> Seq<u32>;

/// The capacity an aligned vector of 32-bit words was created with.
pub uninterp spec fn u32_capacity(v: Aligned32<u32>) -> nat;

/// `AVec::with_capacity(32, capacity)`: an empty vector, 32-byte aligned,
/// whose buffer holds exactly `capacity` items. `aligned_vec` panics when the
/// buffer size in bytes overflows, which `requires` rules out.
#[verifier::external_body]
pub(crate) fn i16_with_capacity(capacity: usize) -> (v: Aligned32<i16>)
    requires
        capacity * 2 <= isize::MAX,
    ensures
        i16_items(v) == Seq::<i16>::empty(),
        i16_capacity(v) == capacity,
{
    Aligned32 { inner: AVec::with_capacity(32, capacity) }
}

/// `AVec::push`: appends `x`. With room left in the buffer `aligned_vec` writes in
/// place and never reallocates, so the capacity stays as it was.
#[verifier::external_body]
pub(crate) fn i16_push(v: &mut Aligned32<i16>, x: i16)
    requires
        i16_items(*old(v)).len() < i16_capacity(*old(v)),
    ensures
        i16_items(*final(v)) == i16_items(*old(v)).push(x),
        i16_capacity(*final(v)) == i16_capacity(*old(v)),
{
    v.inner.push(x)
}

/// `AVec::as_slice`: the items, borrowed as a slice.
#[verifier::external_body]
pub(crate) fn i16_as_slice(v: &Aligned32<i16>) -> (s: &[i16])
    ensures
        s@ == i16_items(*v),
{
    v.inner.as_slice()
}

/// `AVec::with_capacity(32, capacity)` for 32-bit words; see `i16_with_capacity`.
#[verifier::external_body]
pub(crate) fn u32_with_capacity(capacity: usize) -> (v: Aligned32<u32>)
    requires
        capacity * 4 <= isize::MAX,
    ensures
        u32_items(v) == Seq::<u32>::empty(),
        u32_capacity(v) == capacity,
{
    Aligned32 { inner: AVec::with_capacity(32, capacity) }
}

/// `AVec::push` for 32-bit words; see `i16_push`.
#[verifier::external_body]
pub(crate) fn u32_push(v: &mut Aligned32<u32>, x: u32)
    requires
        u32_items(*old(v)).len() < u32_capacity(*old(v)),
    ensures
        u32_items(*final(v)) == u32_items(*old(v)).push(x),
        u32_capacity(*final(v)) == u32_capacity(*old(v)),
{
    v.inner.push(x)
}

/// `AVec::as_slice` for 32-bit words.
#[verifier::external_body]
pub(crate) fn u32_as_slice(v: &Aligned32<u32>) -> (s: &[u32])
    ensures
        s@ == u32_items(*v),
{
    v.inner.as_slice()
}

} // verus!
