//! The frames of the event ring.
use bytes::{Bytes, BytesMut};
use vstd::prelude::*;
use vstd::slice::slice_subrange;

use crate::codec::{
    le16, le64, lemma_read_u16, lemma_read_u64, lemma_stands_part, read_u16, read_u64, u16_at,
    u64_at,
};
use crate::events::error::Error;
use crate::events::layout::EVENT_PAYLOAD_MAX;
use crate::octets;
use crate::octets::{octets, written};

verus! {

broadcast use crate::codec::group_widths;

/// Bytes before the topic: two lengths and a timestamp.
pub const HEADER_LEN: usize = 12;

/// The class of an event's frame.
pub const FRAME_KIND_EVENT: u8 = 1;

/// The frame of an event.
pub open spec fn event_frame(topic: Seq<u8>, payload: Seq<u8>, timestamp_ms: u64) -> Seq<u8> {
    le16(topic.len() as u16) + le16(payload.len() as u16) + le64(timestamp_ms) + topic + payload
}

/// Why an event does not fit a frame.
pub open spec fn frame_fault(topic_len: nat, payload_len: nat, max: usize) -> Option<Error> {
    if topic_len > u16::MAX || payload_len > u16::MAX || HEADER_LEN + topic_len + payload_len
        > max {
        Some(
            Error::FrameTooLarge {
                topic_len: topic_len as usize,
                payload_len: payload_len as usize,
                max_payload: max,
            },
        )
    } else {
        None
    }
}

/// Encodes an event in a frame of at most `max` bytes.
pub fn encode_within(topic: &[u8], payload: &[u8], timestamp_ms: u64, max: usize) -> (frame: Result<
    Bytes,
    Error,
>)
    ensures
        match frame_fault(topic@.len(), payload@.len(), max) {
            Some(error) => frame == Err::<Bytes, Error>(error),
            None => {
                &&& frame is Ok
                &&& octets(frame->Ok_0) == event_frame(topic@, payload@, timestamp_ms)
                &&& octets(frame->Ok_0).len() == HEADER_LEN + topic@.len() + payload@.len()
            },
        },
{
    if topic.len() > 0xFFFF || payload.len() > 0xFFFF || HEADER_LEN + topic.len() + payload.len()
        > max {
        return Err(
            Error::FrameTooLarge {
                topic_len: topic.len(),
                payload_len: payload.len(),
                max_payload: max,
            },
        );
    }
    let mut out: BytesMut = octets::with_capacity(HEADER_LEN + topic.len() + payload.len());
    octets::put_u16_le(&mut out, topic.len() as u16);
    octets::put_u16_le(&mut out, payload.len() as u16);
    octets::put_u64_le(&mut out, timestamp_ms);
    octets::put_slice(&mut out, topic);
    octets::put_slice(&mut out, payload);
    assert(written(out) =~= event_frame(topic@, payload@, timestamp_ms));
    Ok(octets::freeze(out))
}

/// Encodes an event for the default ring.
pub fn encode_frame(topic: &[u8], payload: &[u8], timestamp_ms: u64) -> (frame: Result<
    Bytes,
    Error,
>)
    ensures
        match frame_fault(topic@.len(), payload@.len(), EVENT_PAYLOAD_MAX) {
            Some(error) => frame == Err::<Bytes, Error>(error),
            None => {
                &&& frame is Ok
                &&& octets(frame->Ok_0) == event_frame(topic@, payload@, timestamp_ms)
                &&& octets(frame->Ok_0).len() == HEADER_LEN + topic@.len() + payload@.len()
            },
        },
{
    encode_within(topic, payload, timestamp_ms, EVENT_PAYLOAD_MAX)
}

/// The parts of an event's frame.
#[derive(Debug)]
pub struct DecodedFrame<'a> {
    pub topic: &'a [u8],
    pub payload: &'a [u8],
    pub timestamp_ms: u64,
}

/// The topic, the payload and the timestamp of a frame, when it is an event's.
/// What stands behind the payload means nothing.
pub open spec fn parts(bytes: Seq<u8>) -> Option<(Seq<u8>, Seq<u8>, u64)> {
    let topic_end = HEADER_LEN + u16_at(bytes, 0);
    let payload_end = topic_end + u16_at(bytes, 2);
    if bytes.len() < HEADER_LEN || bytes.len() < payload_end {
        None
    } else {
        Some(
            (
                bytes.subrange(HEADER_LEN as int, topic_end),
                bytes.subrange(topic_end, payload_end),
                u64_at(bytes, 4),
            ),
        )
    }
}

/// Decodes an event's frame.
pub fn decode_frame(frame: &Bytes) -> (decoded: Option<DecodedFrame<'_>>)
    ensures
        match decoded {
            Some(decoded) => parts(octets(*frame)) == Some(
                (decoded.topic@, decoded.payload@, decoded.timestamp_ms),
            ),
            None => parts(octets(*frame)) is None,
        },
{
    let bytes: &[u8] = octets::as_slice(frame);
    if bytes.len() < HEADER_LEN {
        return None;
    }
    let topic_end: usize = HEADER_LEN + read_u16(bytes, 0) as usize;
    let payload_end: usize = topic_end + read_u16(bytes, 2) as usize;
    if bytes.len() < payload_end {
        return None;
    }
    Some(
        DecodedFrame {
            topic: slice_subrange(bytes, HEADER_LEN, topic_end),
            payload: slice_subrange(bytes, topic_end, payload_end),
            timestamp_ms: read_u64(bytes, 4),
        },
    )
}

/// An event that was encoded is decoded to the same event.
pub proof fn law_event_round_trip(topic: Seq<u8>, payload: Seq<u8>, timestamp_ms: u64)
    requires
        topic.len() <= u16::MAX,
        payload.len() <= u16::MAX,
    ensures
        parts(event_frame(topic, payload, timestamp_ms)) == Some((topic, payload, timestamp_ms)),
{
    let header = le16(topic.len() as u16) + le16(payload.len() as u16) + le64(timestamp_ms);
    let bytes = event_frame(topic, payload, timestamp_ms);
    assert(header.len() == 12);
    assert(bytes.subrange(0, 12) =~= header);
    assert(header.subrange(0, 2) =~= le16(topic.len() as u16));
    assert(header.subrange(2, 4) =~= le16(payload.len() as u16));
    assert(header.subrange(4, 12) =~= le64(timestamp_ms));
    lemma_stands_part(bytes, 0, header, 0, 2);
    lemma_stands_part(bytes, 0, header, 2, 4);
    lemma_stands_part(bytes, 0, header, 4, 12);
    lemma_read_u16(bytes, 0, topic.len() as u16);
    lemma_read_u16(bytes, 2, payload.len() as u16);
    lemma_read_u64(bytes, 4, timestamp_ms);
    let topic_end = 12 + topic.len() as int;
    assert(bytes.subrange(12, topic_end) =~= topic);
    assert(bytes.subrange(topic_end, topic_end + payload.len()) =~= payload);
}

/// Where the fields of an event's frame stand: the two lengths, the time, the topic and
/// the payload, and nothing else.
pub proof fn law_event_frame_layout(topic: Seq<u8>, payload: Seq<u8>, timestamp_ms: u64)
    requires
        topic.len() <= u16::MAX,
        payload.len() <= u16::MAX,
    ensures
        ({
            let bytes = event_frame(topic, payload, timestamp_ms);
            &&& bytes.len() == 12 + topic.len() + payload.len()
            &&& bytes[0] + 256 * bytes[1] == topic.len()
            &&& bytes[2] + 256 * bytes[3] == payload.len()
            &&& u64_at(bytes, 4) == timestamp_ms
            &&& forall|i: int| 0 <= i < topic.len() ==> bytes[12 + i] == #[trigger] topic[i]
            &&& forall|i: int|
                0 <= i < payload.len() ==> bytes[12 + topic.len() + i] == #[trigger] payload[i]
        }),
{
    law_event_round_trip(topic, payload, timestamp_ms);
    let bytes = event_frame(topic, payload, timestamp_ms);
    assert(topic == bytes.subrange(12, 12 + u16_at(bytes, 0)));
    crate::codec::law_integers_stand_low_byte_first(bytes, 0);
    crate::codec::law_integers_stand_low_byte_first(bytes, 2);
}

/// Bytes are an event exactly where its frame stands at their beginning.
pub proof fn law_event_is_read_where_its_frame_stands(
    bytes: Seq<u8>,
    topic: Seq<u8>,
    payload: Seq<u8>,
    timestamp_ms: u64,
)
    requires
        topic.len() <= u16::MAX,
        payload.len() <= u16::MAX,
    ensures
        parts(bytes) == Some((topic, payload, timestamp_ms)) <==> event_frame(
            topic,
            payload,
            timestamp_ms,
        ).is_prefix_of(bytes),
{
    let frame = event_frame(topic, payload, timestamp_ms);
    law_event_round_trip(topic, payload, timestamp_ms);
    let len = frame.len() as int;
    if frame.is_prefix_of(bytes) {
        assert forall|i: int| 0 <= i < len implies bytes[i] == frame[i] by {}
        crate::codec::lemma_same_u16(bytes, frame, 0);
        crate::codec::lemma_same_u16(bytes, frame, 2);
        crate::codec::lemma_same_u64(bytes, frame, 4);
        assert(bytes.subrange(12, 12 + topic.len() as int) =~= frame.subrange(
            12,
            12 + topic.len() as int,
        ));
        assert(bytes.subrange(12 + topic.len() as int, len) =~= frame.subrange(
            12 + topic.len() as int,
            len,
        ));
    }
    if parts(bytes) == Some((topic, payload, timestamp_ms)) {
        let topic_end = 12 + topic.len() as int;
        assert(topic.len() == u16_at(bytes, 0));
        assert(payload.len() == u16_at(bytes, 2));
        crate::codec::lemma_words_spell(bytes, 0);
        crate::codec::lemma_words_spell(bytes, 2);
        crate::codec::lemma_long_spells(bytes, 4);
        assert(bytes.subrange(0, 2) == le16(topic.len() as u16));
        assert(bytes.subrange(2, 4) == le16(payload.len() as u16));
        assert(bytes.subrange(4, 12) == le64(timestamp_ms));
        assert(bytes.subrange(0, len) =~= bytes.subrange(0, 2) + bytes.subrange(2, 4)
            + bytes.subrange(4, 12) + bytes.subrange(12, topic_end) + bytes.subrange(
            topic_end,
            len,
        ));
        assert(frame.is_prefix_of(bytes));
    }
}

/// An event is accepted exactly where its frame has room, and its lengths fit their
/// fields.
pub proof fn law_event_is_accepted_where_its_frame_fits(
    topic: Seq<u8>,
    payload: Seq<u8>,
    timestamp_ms: u64,
    max: usize,
)
    ensures
        frame_fault(topic.len(), payload.len(), max) is None <==> topic.len() < 65_536
            && payload.len() < 65_536 && event_frame(topic, payload, timestamp_ms).len() <= max,
        topic.len() <= usize::MAX && payload.len() <= usize::MAX ==> (frame_fault(
            topic.len(),
            payload.len(),
            max,
        ) matches Some(error) ==> error matches Error::FrameTooLarge {
            topic_len,
            payload_len,
            max_payload,
        } && topic_len == topic.len() && payload_len == payload.len() && max_payload == max),
{
    let bytes = event_frame(topic, payload, timestamp_ms);
    assert(bytes.len() == 12 + topic.len() + payload.len());
}

} // verus!
