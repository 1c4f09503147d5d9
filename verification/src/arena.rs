//! Byte strings and lists of indices that live in a bump arena of `bumpalo`.

use vstd::prelude::*;

verus! {

/// `bumpalo::Bump`, the arena. It is only handed on: nothing is said of what
/// it holds.
#[verifier::external_type_specification]
#[verifier::external_body]
pub struct ExBump<const MIN_ALIGN: usize>(bumpalo::Bump<MIN_ALIGN>);

/// `bumpalo::collections::Vec`, a vector whose storage lies in an arena. What
/// one of bytes holds goes by the name `arena_bytes`, what one of indices
/// holds by the name `arena_indices`.
#[verifier::external_type_specification]
#[verifier::external_body]
#[verifier::reject_recursive_types(T)]
pub struct ExBumpVec<'bump, T>(bumpalo::collections::Vec<'bump, T>);

/// The bytes that an arena vector holds, in order.
pub uninterp spec fn arena_bytes(v: bumpalo::collections::Vec<'_, u8>) -> Seq<u8>;

/// `bumpalo::collections::Vec::new_in`: a vector in `arena` that holds nothing.
#[verifier::external_body]
pub(crate) fn empty_in<'b>(arena: &'b bumpalo::Bump) -> (v: bumpalo::collections::Vec<'b, u8>)
    ensures
        arena_bytes(v) == Seq::<u8>::empty(),
{
    bumpalo::collections::Vec::new_in(arena)
}

/// `bumpalo::collections::Vec::from_iter_in` over the bytes of `src`: a
/// vector in `arena` that holds a copy of them.
#[verifier::external_body]
pub(crate) fn bytes_in<'b>(src: &[u8], arena: &'b bumpalo::Bump) -> (v: bumpalo::collections::Vec<
    'b,
    u8,
>)
    ensures
        arena_bytes(v) == src@,
{
    bumpalo::collections::Vec::from_iter_in(src.iter().copied(), arena)
}

/// `bumpalo::collections::Vec::as_slice`: the bytes the vector holds.
#[verifier::external_body]
pub(crate) fn bytes_of<'a, 'b>(v: &'a bumpalo::collections::Vec<'b, u8>) -> (s: &'a [u8])
    ensures
        s@ == arena_bytes(*v),
{
    v.as_slice()
}

/// `bumpalo::collections::Vec::truncate`: keeps the first `len` bytes, and
/// everything when the vector holds no more than `len`.
#[verifier::external_body]
pub(crate) fn bytes_truncate<'b>(v: &mut bumpalo::collections::Vec<'b, u8>, len: usize)
    ensures
        arena_bytes(*final(v)) == if len <= arena_bytes(*old(v)).len() {
            arena_bytes(*old(v)).take(len as int)
        } else {
            arena_bytes(*old(v))
        },
{
    v.truncate(len)
}

/// The indices that an arena vector holds, in order.
pub uninterp spec fn arena_indices(v: bumpalo::collections::Vec<'_, usize>) -> Seq<usize>;

/// `bumpalo::collections::Vec::new_in` for a vector of indices: a vector
/// in `arena` that holds nothing.
#[verifier::external_body]
pub(crate) fn indices_in<'b>(arena: &'b bumpalo::Bump) -> (v: bumpalo::collections::Vec<
    'b,
    usize,
>)
    ensures
        arena_indices(v) == Seq::<usize>::empty(),
{
    bumpalo::collections::Vec::new_in(arena)
}

/// `bumpalo::collections::Vec::as_slice` for a vector of indices: the
/// indices the vector holds.
#[verifier::external_body]
pub(crate) fn indices_of<'a, 'b>(v: &'a bumpalo::collections::Vec<'b, usize>) -> (s: &'a [usize])
    ensures
        s@ == arena_indices(*v),
{
    v.as_slice()
}

/// `bumpalo::collections::Vec::push`: the index comes behind those the
/// vector holds.
#[verifier::external_body]
pub(crate) fn index_push<'b>(v: &mut bumpalo::collections::Vec<'b, usize>, index: usize)
    ensures
        arena_indices(*final(v)) == arena_indices(*old(v)).push(index),
{
    v.push(index)
}

/// `bumpalo::Bump::new`, boxed and leaked: an arena that is never freed.
#[verifier::external_body]
pub(crate) fn leaked_arena() -> (arena: &'static bumpalo::Bump) {
    Box::leak(Box::new(bumpalo::Bump::new()))
}

} // verus!
