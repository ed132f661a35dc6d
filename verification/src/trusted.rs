//! What this crate takes on trust: the contracts of functions that other crates implement.
//!
//! A batch is gathered in `arrayvec::ArrayVec`, a vector that holds up to a fixed number of items
//! in place. Verus does not look into it, so a name stands for the items that each kind of
//! `ArrayVec` holds, and the functions below say what the calls do to them.
use crate::platform::MAX_SIMD_DEGREE;
use crate::spec::{array_views, block_views, slice_views, BLOCK_LEN};
use arrayvec::ArrayVec;
use vstd::prelude::*;

verus! {

/// `<[T]>::first_chunk` of the standard library: a reference to the first `N` items of the slice
/// as an array, or `None` where the slice is shorter than that.
pub assume_specification<A, const N: usize>[ <[A]>::first_chunk::<N> ](slice: &[A]) -> (r: Option<
    &[A; N],
>)
    ensures
        r is Some <==> N <= slice@.len(),
        r is Some ==> r.unwrap()@ == slice@.subrange(0, N as int),
;

/// `arrayvec::ArrayVec`: a vector of up to `CAP` items.
#[verifier::external_type_specification]
#[verifier::external_body]
#[verifier::reject_recursive_types(T)]
pub struct ExArrayVec<T, const CAP: usize>(arrayvec::ArrayVec<T, CAP>);

/// What the slices in an `ArrayVec` of slices hold, in order.
pub uninterp spec fn slices_in(v: ArrayVec<&[u8], MAX_SIMD_DEGREE>) -> Seq<Seq<u8>>;

/// `ArrayVec::new`: an empty vector.
#[verifier::external_body]
pub(crate) fn slices_new<'a>() -> (v: ArrayVec<&'a [u8], MAX_SIMD_DEGREE>)
    ensures
        slices_in(v) == Seq::<Seq<u8>>::empty(),
{
    ArrayVec::new()
}

/// `ArrayVec::push`: the items stay, and `item` follows the last one. On a full vector the call
/// would panic.
#[verifier::external_body]
pub(crate) fn slices_push<'a>(v: &mut ArrayVec<&'a [u8], MAX_SIMD_DEGREE>, item: &'a [u8])
    requires
        slices_in(*old(v)).len() < MAX_SIMD_DEGREE,
    ensures
        slices_in(*final(v)) == slices_in(*old(v)).push(item@),
{
    v.push(item)
}

/// `ArrayVec::as_slice`: all items, in order.
#[verifier::external_body]
pub(crate) fn slices_as_slice<'a, 'b>(
    v: &'b ArrayVec<&'a [u8], MAX_SIMD_DEGREE>,
) -> (r: &'b [&'a [u8]])
    ensures
        slice_views(r@) == slices_in(*v),
{
    v.as_slice()
}

/// What the blocks in an `ArrayVec` of blocks hold, in order.
pub uninterp spec fn blocks_in(v: ArrayVec<[u8; BLOCK_LEN], MAX_SIMD_DEGREE>) -> Seq<Seq<u8>>;

/// `ArrayVec::new`: an empty vector.
#[verifier::external_body]
pub(crate) fn blocks_new() -> (v: ArrayVec<[u8; BLOCK_LEN], MAX_SIMD_DEGREE>)
    ensures
        blocks_in(v) == Seq::<Seq<u8>>::empty(),
{
    ArrayVec::new()
}

/// `ArrayVec::push`: the items stay, and `item` follows the last one. On a full vector the call
/// would panic.
#[verifier::external_body]
pub(crate) fn blocks_push(
    v: &mut ArrayVec<[u8; BLOCK_LEN], MAX_SIMD_DEGREE>,
    item: [u8; BLOCK_LEN],
)
    requires
        blocks_in(*old(v)).len() < MAX_SIMD_DEGREE,
    ensures
        blocks_in(*final(v)) == blocks_in(*old(v)).push(item@),
{
    v.push(item)
}

/// `ArrayVec::as_slice`: all items, in order.
#[verifier::external_body]
pub(crate) fn blocks_as_slice(
    v: &ArrayVec<[u8; BLOCK_LEN], MAX_SIMD_DEGREE>,
) -> (r: &[[u8; BLOCK_LEN]])
    ensures
        block_views(r@) == blocks_in(*v),
{
    v.as_slice()
}

/// What the blocks hold to which the references in an `ArrayVec` point, in order.
pub uninterp spec fn block_refs_in(v: ArrayVec<&[u8; BLOCK_LEN], MAX_SIMD_DEGREE>) -> Seq<Seq<u8>>;

/// `<ArrayVec as FromIterator>::from_iter`: the items of the iterator, in order. With more items
/// than there is room for the call would panic.
#[verifier::external_body]
pub(crate) fn block_refs_collect<'a>(blocks: &'a [[u8; BLOCK_LEN]]) -> (v: ArrayVec<
    &'a [u8; BLOCK_LEN],
    MAX_SIMD_DEGREE,
>)
    requires
        blocks@.len() <= MAX_SIMD_DEGREE,
    ensures
        block_refs_in(v) == block_views(blocks@),
{
    blocks.iter().collect()
}

/// `ArrayVec::as_slice`: all items, in order.
#[verifier::external_body]
pub(crate) fn block_refs_as_slice<'a, 'b>(
    v: &'b ArrayVec<&'a [u8; BLOCK_LEN], MAX_SIMD_DEGREE>,
) -> (r: &'b [&'a [u8; BLOCK_LEN]])
    ensures
        array_views(r@) == block_refs_in(*v),
{
    v.as_slice()
}

} // verus!
