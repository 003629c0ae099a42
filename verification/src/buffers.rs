//! The buffers of the `bytes` crate, as far as they are used here: what they hold.

use bytes::{Bytes, BytesMut};
use vstd::prelude::*;

verus! {

#[verifier::external_type_specification]
#[verifier::external_body]
pub struct ExBytes(bytes::Bytes);

#[verifier::external_type_specification]
#[verifier::external_body]
pub struct ExBytesMut(bytes::BytesMut);

/// The bytes that a `Bytes` holds.
pub uninterp spec fn content(b: Bytes) -> Seq<u8>;

/// The bytes that a `BytesMut` holds.
pub uninterp spec fn buffered(b: BytesMut) -> Seq<u8>;

/// Trusted: `BytesMut::with_capacity` returns an empty buffer. It panics beyond
/// what one allocation may take.
pub assume_specification[ BytesMut::with_capacity ](capacity: usize) -> (r: BytesMut)
    requires
        capacity <= usize::MAX / 4,
    ensures
        buffered(r) == Seq::<u8>::empty(),
;

/// Trusted: `BytesMut::extend_from_slice` appends the given bytes. It panics
/// where the buffer would outgrow what one allocation may take.
pub assume_specification[ BytesMut::extend_from_slice ](b: &mut BytesMut, extend: &[u8])
    requires
        buffered(*old(b)).len() + extend@.len() <= usize::MAX / 4,
    ensures
        buffered(*final(b)) == buffered(*old(b)) + extend@,
;

/// Trusted: `BytesMut::freeze` keeps the bytes of the buffer.
pub assume_specification[ BytesMut::freeze ](b: BytesMut) -> (r: Bytes)
    ensures
        content(r) == buffered(b),
;

/// The bytes of a buffer.
///
/// Trusted: a `BytesMut` dereferences to the bytes that it holds.
#[verifier::external_body]
pub(crate) fn buffered_bytes(b: &BytesMut) -> (r: &[u8])
    ensures
        r@ == buffered(*b),
{
    b
}

/// Trusted: `Bytes::copy_from_slice` holds a copy of the given bytes. It panics
/// beyond what one allocation may take, which no slice is.
pub assume_specification[ bytes::Bytes::copy_from_slice ](data: &[u8]) -> (r: bytes::Bytes)
    ensures
        content(r) == data@,
;

/// Trusted: a clone of a `Bytes` holds the same bytes.
pub assume_specification[ <bytes::Bytes as Clone>::clone ](b: &bytes::Bytes) -> (r: bytes::Bytes)
    ensures
        content(r) == content(*b),
;

/// The bytes that a `Bytes` holds.
///
/// Trusted: a `Bytes` dereferences to the bytes that it holds.
#[verifier::external_body]
pub(crate) fn content_bytes(b: &Bytes) -> (r: &[u8])
    ensures
        r@ == content(*b),
{
    b
}

} // verus!
