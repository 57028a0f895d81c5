//! The byte buffers of the `bytes` crate, as this library sees them.
//!
//! `Bytes` is the payload of a frame and `BytesMut` the buffer a codec writes
//! into. Both are opaque to the verifier: what they hold is named by
//! [`octets`] and [`written`], and the functions below are the only ones that
//! touch them.
use bytes::{BufMut, Bytes, BytesMut};
use vstd::prelude::*;

use crate::codec::{le16, le32, le64};

verus! {

/// The immutable buffer type of the `bytes` crate.
#[verifier::external_type_specification]
#[verifier::external_body]
pub struct ExBytes(bytes::Bytes);

/// The growable buffer type of the `bytes` crate.
#[verifier::external_type_specification]
#[verifier::external_body]
pub struct ExBytesMut(bytes::BytesMut);

/// The bytes that a `Bytes` holds, in order.
pub uninterp spec fn octets(buffer: Bytes) -> Seq<u8>;

/// The bytes written so far into a `BytesMut`, in order.
pub uninterp spec fn written(buffer: BytesMut) -> Seq<u8>;

/// The contents of each buffer of a sequence.
pub open spec fn all_octets(buffers: Seq<Bytes>) -> Seq<Seq<u8>> {
    buffers.map_values(|buffer: Bytes| octets(buffer))
}

/// `Bytes::as_ref`: the buffer as a slice, which holds the same bytes.
#[verifier::external_body]
pub(crate) fn as_slice(buffer: &Bytes) -> (slice: &[u8])
    ensures
        slice@ == octets(*buffer),
{
    buffer.as_ref()
}

/// `Bytes::clone`: a second handle on the same bytes.
#[verifier::external_body]
pub(crate) fn duplicate(buffer: &Bytes) -> (copy: Bytes)
    ensures
        octets(copy) == octets(*buffer),
{
    buffer.clone()
}

/// `Bytes::new`: a buffer that holds nothing.
#[verifier::external_body]
pub(crate) fn empty() -> (buffer: Bytes)
    ensures
        octets(buffer) == Seq::<u8>::empty(),
{
    Bytes::new()
}

/// `Bytes::copy_from_slice`: a new buffer with the slice's bytes.
#[verifier::external_body]
pub(crate) fn copy_of(slice: &[u8]) -> (buffer: Bytes)
    ensures
        octets(buffer) == slice@,
{
    Bytes::copy_from_slice(slice)
}

/// `Bytes::from(Vec<u8>)`: the vector's bytes as a buffer.
#[verifier::external_body]
pub(crate) fn from_vec(bytes: Vec<u8>) -> (buffer: Bytes)
    ensures
        octets(buffer) == bytes@,
{
    Bytes::from(bytes)
}

/// `Bytes::slice`: a handle on the bytes from `begin` up to `end`. The call
/// panics on a range outside the buffer, which `requires` leaves out.
#[verifier::external_body]
pub(crate) fn section(buffer: &Bytes, begin: usize, end: usize) -> (part: Bytes)
    requires
        begin <= end <= octets(*buffer).len(),
    ensures
        octets(part) == octets(*buffer).subrange(begin as int, end as int),
{
    buffer.slice(begin..end)
}

/// `BytesMut::with_capacity`: an empty buffer. An allocation above
/// `isize::MAX` bytes panics, which `requires` leaves out.
#[verifier::external_body]
pub(crate) fn with_capacity(capacity: usize) -> (buffer: BytesMut)
    requires
        capacity <= isize::MAX,
    ensures
        written(buffer) == Seq::<u8>::empty(),
{
    BytesMut::with_capacity(capacity)
}

/// `BufMut::put_u8` on a `BytesMut`: appends one byte.
#[verifier::external_body]
pub(crate) fn put_u8(buffer: &mut BytesMut, value: u8)
    requires
        written(*old(buffer)).len() + 1 <= isize::MAX,
    ensures
        written(*final(buffer)) == written(*old(buffer)).push(value),
{
    buffer.put_u8(value)
}

/// `BufMut::put_u16_le` on a `BytesMut`: appends the value's two bytes, low
/// byte first.
#[verifier::external_body]
pub(crate) fn put_u16_le(buffer: &mut BytesMut, value: u16)
    requires
        written(*old(buffer)).len() + 2 <= isize::MAX,
    ensures
        written(*final(buffer)) == written(*old(buffer)) + le16(value),
{
    buffer.put_u16_le(value)
}

/// `BufMut::put_u32_le` on a `BytesMut`: appends the value's four bytes, low
/// byte first.
#[verifier::external_body]
pub(crate) fn put_u32_le(buffer: &mut BytesMut, value: u32)
    requires
        written(*old(buffer)).len() + 4 <= isize::MAX,
    ensures
        written(*final(buffer)) == written(*old(buffer)) + le32(value),
{
    buffer.put_u32_le(value)
}

/// `BufMut::put_u64_le` on a `BytesMut`: appends the value's eight bytes, low
/// byte first.
#[verifier::external_body]
pub(crate) fn put_u64_le(buffer: &mut BytesMut, value: u64)
    requires
        written(*old(buffer)).len() + 8 <= isize::MAX,
    ensures
        written(*final(buffer)) == written(*old(buffer)) + le64(value),
{
    buffer.put_u64_le(value)
}

/// `BufMut::put_slice` on a `BytesMut`: appends the slice's bytes.
#[verifier::external_body]
pub(crate) fn put_slice(buffer: &mut BytesMut, slice: &[u8])
    requires
        written(*old(buffer)).len() + slice@.len() <= isize::MAX,
    ensures
        written(*final(buffer)) == written(*old(buffer)) + slice@,
{
    buffer.put_slice(slice)
}

/// `BytesMut::freeze`: the bytes written so far as an immutable buffer.
#[verifier::external_body]
pub(crate) fn freeze(buffer: BytesMut) -> (frozen: Bytes)
    ensures
        octets(frozen) == written(buffer),
{
    buffer.freeze()
}

} // verus!
