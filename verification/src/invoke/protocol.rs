//! The frames of the invocation ring.
use bytes::{Bytes, BytesMut};
use vstd::prelude::*;
use vstd::slice::slice_subrange;
use vstd::string::*;

use crate::codec::{
    le16, le32, lemma_read_u16, lemma_read_u32, lemma_stands_part, read_u16, read_u32, u16_at,
    u32_at,
};
use crate::invoke::error::Error;
use crate::invoke::INVOCATION_PAYLOAD_MAX;
use crate::octets;
use crate::octets::{octets, written};
use crate::text::{blank, is_blank};

verus! {

broadcast use crate::codec::group_widths;

/// Bytes before the operation: two lengths.
pub const HEADER_LEN: usize = 6;

/// The class of an invocation's frame.
pub const FRAME_KIND_INVOCATION: u8 = 1;

/// The frame of an invocation.
pub open spec fn invocation_frame(operation: Seq<u8>, payload: Seq<u8>) -> Seq<u8> {
    le16(operation.len() as u16) + le32(payload.len() as u32) + operation + payload
}

/// Why an operation is refused.
pub open spec fn operation_fault(operation: &str) -> Option<Error> {
    if blank(operation@) {
        Some(Error::EmptyOperation)
    } else if operation.spec_bytes().len() > u16::MAX {
        Some(Error::OperationTooLong(operation.spec_bytes().len() as usize))
    } else {
        None
    }
}

/// Checks an operation.
pub fn validate_operation(operation: &str) -> (valid: Result<(), Error>)
    ensures
        match operation_fault(operation) {
            Some(error) => valid == Err::<(), Error>(error),
            None => valid is Ok,
        },
{
    if is_blank(operation) {
        return Err(Error::EmptyOperation);
    }
    let len: usize = operation.as_bytes().len();
    if len > 0xFFFF {
        return Err(Error::OperationTooLong(len));
    }
    Ok(())
}

/// Why an invocation does not fit a frame.
pub open spec fn frame_fault(operation_len: nat, payload_len: nat) -> Option<Error> {
    if operation_len > u16::MAX || HEADER_LEN + operation_len + payload_len
        > INVOCATION_PAYLOAD_MAX {
        Some(
            Error::FrameTooLarge {
                operation_len: operation_len as usize,
                payload_len: payload_len as usize,
                max: INVOCATION_PAYLOAD_MAX,
            },
        )
    } else {
        None
    }
}

/// Encodes an invocation.
pub fn encode_frame(operation: &[u8], payload: &[u8]) -> (frame: Result<Bytes, Error>)
    ensures
        match frame_fault(operation@.len(), payload@.len()) {
            Some(error) => frame == Err::<Bytes, Error>(error),
            None => {
                &&& frame is Ok
                &&& octets(frame->Ok_0) == invocation_frame(operation@, payload@)
                &&& octets(frame->Ok_0).len() == HEADER_LEN + operation@.len() + payload@.len()
            },
        },
{
    if operation.len() > 0xFFFF || payload.len() > INVOCATION_PAYLOAD_MAX || HEADER_LEN
        + operation.len() + payload.len() > INVOCATION_PAYLOAD_MAX {
        return Err(
            Error::FrameTooLarge {
                operation_len: operation.len(),
                payload_len: payload.len(),
                max: INVOCATION_PAYLOAD_MAX,
            },
        );
    }
    let mut out: BytesMut = octets::with_capacity(HEADER_LEN + operation.len() + payload.len());
    octets::put_u16_le(&mut out, operation.len() as u16);
    octets::put_u32_le(&mut out, payload.len() as u32);
    octets::put_slice(&mut out, operation);
    octets::put_slice(&mut out, payload);
    assert(written(out) =~= invocation_frame(operation@, payload@));
    Ok(octets::freeze(out))
}

/// The parts of an invocation's frame.
#[derive(Debug)]
pub struct DecodedFrame<'a> {
    pub operation: &'a [u8],
    pub payload: &'a [u8],
}

/// The operation and the payload of a frame, when it is an invocation's: the two
/// fill the frame.
pub open spec fn parts(bytes: Seq<u8>) -> Option<(Seq<u8>, Seq<u8>)> {
    let operation_end = HEADER_LEN + u16_at(bytes, 0);
    let payload_end = operation_end + u32_at(bytes, 2);
    if bytes.len() < HEADER_LEN || bytes.len() != payload_end {
        None
    } else {
        Some(
            (
                bytes.subrange(HEADER_LEN as int, operation_end),
                bytes.subrange(operation_end, payload_end),
            ),
        )
    }
}

/// Decodes an invocation's frame.
pub fn decode_frame(frame: &Bytes) -> (decoded: Option<DecodedFrame<'_>>)
    ensures
        match decoded {
            Some(decoded) => parts(octets(*frame)) == Some((decoded.operation@, decoded.payload@)),
            None => parts(octets(*frame)) is None,
        },
{
    let bytes: &[u8] = octets::as_slice(frame);
    if bytes.len() < HEADER_LEN {
        return None;
    }
    let operation_end: usize = HEADER_LEN + read_u16(bytes, 0) as usize;
    let payload_len: usize = read_u32(bytes, 2) as usize;
    if bytes.len() < operation_end || bytes.len() - operation_end != payload_len {
        return None;
    }
    Some(
        DecodedFrame {
            operation: slice_subrange(bytes, HEADER_LEN, operation_end),
            payload: slice_subrange(bytes, operation_end, bytes.len()),
        },
    )
}

/// An invocation that was encoded is decoded to the same invocation.
pub proof fn law_invocation_round_trip(operation: Seq<u8>, payload: Seq<u8>)
    requires
        operation.len() <= u16::MAX,
        payload.len() <= u32::MAX,
    ensures
        parts(invocation_frame(operation, payload)) == Some((operation, payload)),
{
    let header = le16(operation.len() as u16) + le32(payload.len() as u32);
    let bytes = invocation_frame(operation, payload);
    assert(header.len() == 6);
    assert(bytes.subrange(0, 6) =~= header);
    assert(header.subrange(0, 2) =~= le16(operation.len() as u16));
    assert(header.subrange(2, 6) =~= le32(payload.len() as u32));
    lemma_stands_part(bytes, 0, header, 0, 2);
    lemma_stands_part(bytes, 0, header, 2, 6);
    lemma_read_u16(bytes, 0, operation.len() as u16);
    lemma_read_u32(bytes, 2, payload.len() as u32);
    let operation_end = 6 + operation.len() as int;
    assert(bytes.subrange(6, operation_end) =~= operation);
    assert(bytes.subrange(operation_end, bytes.len() as int) =~= payload);
}

/// Where the fields of an invocation's frame stand: the two lengths, the operation and
/// the payload, and nothing else.
pub proof fn law_invocation_frame_layout(operation: Seq<u8>, payload: Seq<u8>)
    requires
        operation.len() <= u16::MAX,
        payload.len() <= u32::MAX,
    ensures
        ({
            let bytes = invocation_frame(operation, payload);
            &&& bytes.len() == 6 + operation.len() + payload.len()
            &&& bytes[0] + 256 * bytes[1] == operation.len()
            &&& u32_at(bytes, 2) == payload.len()
            &&& forall|i: int| 0 <= i < operation.len() ==> bytes[6 + i] == #[trigger] operation[i]
            &&& forall|i: int|
                0 <= i < payload.len() ==> bytes[6 + operation.len() + i] == #[trigger] payload[i]
        }),
{
    law_invocation_round_trip(operation, payload);
    let bytes = invocation_frame(operation, payload);
    assert(operation == bytes.subrange(6, 6 + u16_at(bytes, 0)));
    crate::codec::law_integers_stand_low_byte_first(bytes, 0);
}

/// Bytes are an invocation exactly where they are its frame, with nothing behind it.
pub proof fn law_invocation_is_read_where_its_frame_stands(
    bytes: Seq<u8>,
    operation: Seq<u8>,
    payload: Seq<u8>,
)
    requires
        operation.len() <= u16::MAX,
        payload.len() <= u32::MAX,
    ensures
        parts(bytes) == Some((operation, payload)) <==> bytes == invocation_frame(
            operation,
            payload,
        ),
{
    law_invocation_round_trip(operation, payload);
    if parts(bytes) == Some((operation, payload)) {
        let operation_end = 6 + operation.len() as int;
        let len = operation_end + payload.len();
        assert(operation.len() == u16_at(bytes, 0));
        assert(payload.len() == u32_at(bytes, 2));
        crate::codec::lemma_words_spell(bytes, 0);
        crate::codec::lemma_double_spells(bytes, 2);
        assert(bytes =~= bytes.subrange(0, 2) + bytes.subrange(2, 6) + bytes.subrange(
            6,
            operation_end,
        ) + bytes.subrange(operation_end, len));
    }
}

/// An operation is accepted exactly where it is not blank and its length fits its
/// field, and an invocation where its frame has room.
pub proof fn law_invocation_is_accepted_where_its_frame_fits(operation: &str, payload: Seq<u8>)
    ensures
        operation_fault(operation) is None <==> !blank(operation@) && operation.spec_bytes().len()
            < 65_536,
        blank(operation@) ==> operation_fault(operation) == Some(Error::EmptyOperation),
        frame_fault(operation.spec_bytes().len(), payload.len()) is None
            <==> operation.spec_bytes().len() < 65_536 && invocation_frame(
            operation.spec_bytes(),
            payload,
        ).len() <= 8_192,
{
    let bytes = invocation_frame(operation.spec_bytes(), payload);
    assert(bytes.len() == 6 + operation.spec_bytes().len() + payload.len());
}

} // verus!
