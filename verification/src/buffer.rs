//! The growable byte buffer of the `bytes` crate, seen as the bytes it holds.
use vstd::prelude::*;
use bytes::Buf;
use bytes::BytesMut;

verus! {

#[verifier::external_type_specification]
#[verifier::external_body]
pub struct ExBytesMut(BytesMut);

/// The bytes that a `BytesMut` holds, from its read position to its end.
pub uninterp spec fn buffer_bytes(b: BytesMut) -> Seq<u8>;

/// `<BytesMut as Deref>::deref`: the held bytes as a slice.
#[verifier::external_body]
pub(crate) fn buffer_slice(b: &BytesMut) -> (r: &[u8])
    ensures
        r@ == buffer_bytes(*b),
{
    &b[..]
}

/// `BytesMut::len`: the number of held bytes.
#[verifier::external_body]
pub(crate) fn buffer_len(b: &BytesMut) -> (r: usize)
    ensures
        r == buffer_bytes(*b).len(),
{
    b.len()
}

/// `<BytesMut as Buf>::advance`: drops the first `n` held bytes; it panics
/// when fewer are held, which the precondition rules out.
#[verifier::external_body]
pub(crate) fn buffer_advance(b: &mut BytesMut, n: usize)
    requires
        n <= buffer_bytes(*old(b)).len(),
    ensures
        buffer_bytes(*final(b)) == buffer_bytes(*old(b)).skip(n as int),
{
    b.advance(n)
}

/// `<BytesMut as From<&[u8]>>::from`: a new buffer holding a copy of the slice.
#[verifier::external_body]
pub(crate) fn buffer_from_slice(s: &[u8]) -> (r: BytesMut)
    ensures
        buffer_bytes(r) == s@,
{
    BytesMut::from(s)
}

} // verus!
