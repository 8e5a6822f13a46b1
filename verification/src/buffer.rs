//! Trusted view of `bytes::BytesMut`, the growable byte buffer that carries
//! the unconsumed input and the pending output of one connection.
//!
//! The buffer's contents are abstracted as a byte sequence by [`buf_bytes`];
//! the wrappers below state, over that sequence, what the few methods the
//! codec calls do to it.

use vstd::prelude::*;

verus! {

#[verifier::external_type_specification]
#[verifier::external_body]
pub struct ExBytesMut(bytes::BytesMut);

/// The bytes the buffer currently holds, front to back.
pub uninterp spec fn buf_bytes(b: bytes::BytesMut) -> Seq<u8>;

/// Relies on `BytesMut::len`: the number of bytes the buffer holds.
#[verifier::external_body]
pub(crate) fn buf_len(b: &bytes::BytesMut) -> (n: usize)
    ensures
        n == buf_bytes(*b).len(),
{
    b.len()
}

/// Relies on indexing through `BytesMut`'s `Deref` to `[u8]`: the byte at
/// the given position.
#[verifier::external_body]
pub(crate) fn buf_get(b: &bytes::BytesMut, i: usize) -> (r: u8)
    requires
        i < buf_bytes(*b).len(),
    ensures
        r == buf_bytes(*b)[i as int],
{
    b[i]
}

/// Relies on `bytes::Buf::advance`: discards the first `n` bytes and keeps
/// the rest.
#[verifier::external_body]
pub(crate) fn buf_advance(b: &mut bytes::BytesMut, n: usize)
    requires
        n <= buf_bytes(*old(b)).len(),
    ensures
        buf_bytes(*final(b)) == buf_bytes(*old(b)).skip(n as int),
{
    bytes::Buf::advance(b, n)
}

/// Relies on `BytesMut::extend_from_slice`: appends the given bytes at the
/// back, keeping everything already there.
#[verifier::external_body]
pub(crate) fn buf_extend(b: &mut bytes::BytesMut, v: &[u8])
    ensures
        buf_bytes(*final(b)) == buf_bytes(*old(b)) + v@,
{
    b.extend_from_slice(v)
}

} // verus!
