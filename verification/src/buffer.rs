//! Shared copy-on-write byte buffers and byte search.
//!
//! The buffer type and the search routine come from outside this crate. The
//! items in this module state what the rest of the crate relies on; none of
//! these statements is proved here.

use ecow::EcoVec;
use vstd::prelude::*;

verus! {

#[verifier::external_type_specification]
#[verifier::external_body]
#[verifier::reject_recursive_types(T)]
pub struct ExEcoVec<T>(EcoVec<T>);

/// The bytes that a shared buffer holds, first to last.
pub uninterp spec fn buffer_bytes(buf: EcoVec<u8>) -> Seq<u8>;

/// `EcoVec::new`: a buffer that holds nothing.
#[verifier::external_body]
pub(crate) fn buffer_new() -> (buf: EcoVec<u8>)
    ensures
        buffer_bytes(buf) == Seq::<u8>::empty(),
{
    EcoVec::new()
}

/// `EcoVec::len`: the number of bytes held. The outside type keeps its
/// length within what one allocation can hold.
#[verifier::external_body]
pub(crate) fn buffer_len(buf: &EcoVec<u8>) -> (n: usize)
    ensures
        n == buffer_bytes(*buf).len(),
        n <= isize::MAX,
{
    buf.len()
}

/// `EcoVec::as_slice`: the held bytes as a slice, in order. The outside
/// type keeps its length within what one allocation can hold.
#[verifier::external_body]
pub(crate) fn buffer_as_slice(buf: &EcoVec<u8>) -> (bytes: &[u8])
    ensures
        bytes@ == buffer_bytes(*buf),
        bytes@.len() <= isize::MAX,
{
    buf.as_slice()
}

/// `EcoVec::push`: appends one byte. The outside code panics when the new
/// length would not fit an allocation, so the length is bounded here.
#[verifier::external_body]
pub(crate) fn buffer_push(buf: &mut EcoVec<u8>, byte: u8)
    requires
        buffer_bytes(*old(buf)).len() < isize::MAX,
    ensures
        buffer_bytes(*final(buf)) == buffer_bytes(*old(buf)).push(byte),
{
    buf.push(byte)
}

/// `EcoVec::pop`: removes the last byte and returns it, or returns `None`
/// and leaves an empty buffer as it is.
#[verifier::external_body]
pub(crate) fn buffer_pop(buf: &mut EcoVec<u8>) -> (last: Option<u8>)
    ensures
        buffer_bytes(*old(buf)).len() == 0 ==> last.is_none() && buffer_bytes(*final(buf))
            == buffer_bytes(*old(buf)),
        buffer_bytes(*old(buf)).len() > 0 ==> last == Some(buffer_bytes(*old(buf)).last())
            && buffer_bytes(*final(buf)) == buffer_bytes(*old(buf)).drop_last(),
{
    buf.pop()
}

/// `EcoVec::extend_from_slice`: appends a copy of every byte of `bytes`, in
/// order. The outside code panics when the new length would not fit an
/// allocation, so the length is bounded here.
#[verifier::external_body]
pub(crate) fn buffer_extend(buf: &mut EcoVec<u8>, bytes: &[u8])
    requires
        buffer_bytes(*old(buf)).len() + bytes@.len() <= isize::MAX,
    ensures
        buffer_bytes(*final(buf)) == buffer_bytes(*old(buf)) + bytes@,
{
    buf.extend_from_slice(bytes)
}

/// `EcoVec::truncate`: keeps the first `target` bytes and drops the rest; a
/// buffer that is already that short is left as it is.
#[verifier::external_body]
pub(crate) fn buffer_truncate(buf: &mut EcoVec<u8>, target: usize)
    ensures
        target >= buffer_bytes(*old(buf)).len() ==> buffer_bytes(*final(buf)) == buffer_bytes(
            *old(buf),
        ),
        target < buffer_bytes(*old(buf)).len() ==> buffer_bytes(*final(buf)) == buffer_bytes(
            *old(buf),
        ).subrange(0, target as int),
{
    buf.truncate(target)
}

/// `EcoVec::clone`: a second handle on the same bytes.
#[verifier::external_body]
pub(crate) fn buffer_clone(buf: &EcoVec<u8>) -> (copy: EcoVec<u8>)
    ensures
        buffer_bytes(copy) == buffer_bytes(*buf),
{
    buf.clone()
}

/// `memchr::memrchr`: the index of the last occurrence of `needle` in
/// `haystack`, or `None` when it does not occur.
#[verifier::external_body]
pub(crate) fn last_index_of(needle: u8, haystack: &[u8]) -> (found: Option<usize>)
    ensures
        match found {
            Some(i) => i < haystack@.len() && haystack@[i as int] == needle && forall|j: int|
                i < j < haystack@.len() ==> haystack@[j] != needle,
            None => forall|j: int| 0 <= j < haystack@.len() ==> haystack@[j] != needle,
        },
{
    memchr::memrchr(needle, haystack)
}

} // verus!
