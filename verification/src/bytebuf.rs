//! The codec's residual byte buffer, backed by `bytes::BytesMut`.
//!
//! The buffer is declared opaque to the verifier; `buf_contents` names what
//! it holds, front to back, and each wrapper states over that name what the
//! one `bytes` operation it calls does.

use vstd::prelude::*;

verus! {

#[verifier::external_type_specification]
#[verifier::external_body]
pub struct ExBytesMut(bytes::BytesMut);

/// The bytes the buffer holds, front to back.
pub uninterp spec fn buf_contents(b: bytes::BytesMut) -> Seq<u8>;

/// Relies on `bytes::BytesMut::with_capacity`: the new buffer is empty.
#[verifier::external_body]
pub fn buf_new() -> (r: bytes::BytesMut)
    ensures
        buf_contents(r) == Seq::<u8>::empty(),
{
    bytes::BytesMut::with_capacity(4096)
}

/// Relies on `bytes::BytesMut::extend_from_slice`: appends the bytes at the back.
#[verifier::external_body]
pub fn buf_extend(b: &mut bytes::BytesMut, data: &[u8])
    ensures
        buf_contents(*final(b)) == buf_contents(*old(b)) + data@,
{
    b.extend_from_slice(data);
}

/// Relies on `Deref<Target = [u8]>` for `bytes::BytesMut`: a slice of the
/// buffer's bytes, front to back.
#[verifier::external_body]
pub fn buf_as_slice(b: &bytes::BytesMut) -> (r: &[u8])
    ensures
        r@ == buf_contents(*b),
{
    &b[..]
}

/// Relies on `bytes::Buf::advance` for `bytes::BytesMut`: discards the
/// first `n` bytes (it panics past the end, which the bound rules out).
#[verifier::external_body]
pub fn buf_advance(b: &mut bytes::BytesMut, n: usize)
    requires
        n <= buf_contents(*old(b)).len(),
    ensures
        buf_contents(*final(b)) == buf_contents(*old(b)).skip(n as int),
{
    bytes::Buf::advance(b, n);
}

/// Relies on `bytes::BytesMut::clear`: empties the buffer.
#[verifier::external_body]
pub fn buf_clear(b: &mut bytes::BytesMut)
    ensures
        buf_contents(*final(b)) == Seq::<u8>::empty(),
{
    b.clear();
}

} // verus!
