//! The growable byte buffer of the `bytes` crate, as the library sees it:
//! a sequence of bytes, cut from the front and extended at the back.

use vstd::prelude::*;

verus! {

#[verifier::external_type_specification]
#[verifier::external_body]
pub struct ExBytesMut(bytes::BytesMut);

/// The bytes that a buffer holds, front first.
pub uninterp spec fn contents(b: bytes::BytesMut) -> Seq<u8>;

/// Relies on `BytesMut::with_capacity`: an empty buffer, whatever the capacity.
pub assume_specification[ bytes::BytesMut::with_capacity ](capacity: usize) -> (r: bytes::BytesMut)
    ensures
        contents(r) == Seq::<u8>::empty(),
;

/// Relies on `BytesMut::len`: the number of bytes held.
pub assume_specification[ bytes::BytesMut::len ](b: &bytes::BytesMut) -> (r: usize)
    ensures
        r == contents(*b).len(),
;

/// Relies on `BytesMut::split_to`: the first `at` bytes leave the buffer and
/// are returned; it panics when `at` exceeds the length.
pub assume_specification[ bytes::BytesMut::split_to ](b: &mut bytes::BytesMut, at: usize) -> (r: bytes::BytesMut)
    requires
        at <= contents(*old(b)).len(),
    ensures
        contents(r) == contents(*old(b)).take(at as int),
        contents(*final(b)) == contents(*old(b)).skip(at as int),
;

/// Relies on `BytesMut::extend_from_slice`: the slice is appended.
pub assume_specification[ bytes::BytesMut::extend_from_slice ](b: &mut bytes::BytesMut, extend: &[u8])
    ensures
        contents(*final(b)) == contents(*old(b)) + extend@,
;

/// Relies on `BytesMut::unsplit`: the other buffer's bytes are appended.
pub assume_specification[ bytes::BytesMut::unsplit ](b: &mut bytes::BytesMut, other: bytes::BytesMut)
    ensures
        contents(*final(b)) == contents(*old(b)) + contents(other),
;

/// Relies on indexing through `BytesMut`'s slice view: the byte at `i`.
#[verifier::external_body]
pub(crate) fn byte_at(b: &bytes::BytesMut, i: usize) -> (r: u8)
    requires
        i < contents(*b).len(),
    ensures
        r == contents(*b)[i as int],
{
    b[i]
}

} // verus!
