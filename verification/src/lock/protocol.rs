//! The transition records of the lock.
use bytes::{Bytes, BytesMut};
use vstd::prelude::*;

use crate::codec::{
    le16, le32, le64, lemma_read_u16, lemma_read_u32, lemma_read_u64, lemma_stands_part, read_u16,
    read_u32, read_u64, u16_at, u32_at, u64_at,
};
use crate::id::NetId64;
use crate::lock::error::Error;
use crate::lock::keys::{
    EventView, KeyView, LeaseView, LockEvent, LockKey, LockLease, LockOwner, LockTransition,
    TransitionView,
};
use crate::lock::layout::LockLayout;
use crate::lock::state::LOCK_STATE_PAYLOAD_MAX;
use crate::numbers::{max_of, min_of, min_usize};
use crate::octets;
use crate::octets::{octets, written};
use crate::ring::{Frame, FrameView};

verus! {

broadcast use crate::codec::group_widths;

/// First word of every transition record.
pub const MAGIC: u32 = 0x4F4C_434B;

/// Version of the transition records.
pub const VERSION: u8 = 2;

pub const FRAME_KIND_ACQUIRED: u8 = 1;

pub const FRAME_KIND_RENEWED: u8 = 2;

pub const FRAME_KIND_RELEASED: u8 = 3;

/// Bytes before the namespace: magic, version, three lengths, lock id, and the
/// beginning and end of the tenure.
pub const EVENT_HEADER_LEN: usize = 35;

/// The largest namespace, label and owner together that an event carries.
pub open spec fn entry_limit<L: LockLayout>() -> int {
    min_of(
        max_of(L::EVENT_RING_PAYLOAD_CAPACITY - EVENT_HEADER_LEN, 0),
        LOCK_STATE_PAYLOAD_MAX as int,
    )
}

/// Why a transition is too large for an event.
pub open spec fn event_fault<L: LockLayout>(key: KeyView, owner: Seq<u8>) -> Option<Error> {
    if key.namespace.len() + key.label.len() + owner.len() > entry_limit::<L>() {
        Some(
            Error::EntryTooLarge {
                namespace_len: key.namespace.len() as usize,
                key_len: key.label.len() as usize,
                owner_len: owner.len() as usize,
                max_payload: entry_limit::<L>() as usize,
            },
        )
    } else {
        None
    }
}

/// The class of a transition's frame.
pub open spec fn frame_kind_of(transition: TransitionView) -> u8 {
    match transition {
        TransitionView::Acquired(_) => FRAME_KIND_ACQUIRED,
        TransitionView::Renewed(_) => FRAME_KIND_RENEWED,
        TransitionView::Released { .. } => FRAME_KIND_RELEASED,
    }
}

/// The beginning and the end that a transition carries; a release has none.
pub open spec fn times_of(transition: TransitionView) -> (u64, u64) {
    match transition {
        TransitionView::Acquired(lease) => (lease.acquired_at_ms, lease.expires_at_ms),
        TransitionView::Renewed(lease) => (lease.acquired_at_ms, lease.expires_at_ms),
        TransitionView::Released { .. } => (0, 0),
    }
}

/// The fixed part of a transition record.
pub open spec fn event_header(
    namespace_len: u16,
    key_len: u16,
    owner_len: u16,
    lock_id: u64,
    times: (u64, u64),
) -> Seq<u8> {
    le32(MAGIC) + seq![VERSION] + le16(namespace_len) + le16(key_len) + le16(owner_len) + le64(
        lock_id,
    ) + le64(times.0) + le64(times.1)
}

/// The record of a transition.
pub open spec fn event_record(transition: TransitionView) -> Seq<u8> {
    let key = transition.key();
    let owner = transition.owner();
    event_header(
        key.namespace.len() as u16,
        key.label.len() as u16,
        owner.len() as u16,
        transition.lock_id().0,
        times_of(transition),
    ) + key.namespace + key.label + owner
}

/// Encodes a transition as a frame class and a record.
pub fn encode<L: LockLayout>(transition: &LockTransition) -> (encoded: Result<(u8, Bytes), Error>)
    ensures
        match event_fault::<L>(transition@.key(), transition@.owner()) {
            Some(error) => encoded == Err::<(u8, Bytes), Error>(error),
            None => {
                &&& encoded is Ok
                &&& (encoded->Ok_0).0 == frame_kind_of(transition@)
                &&& octets((encoded->Ok_0).1) == event_record(transition@)
                &&& event_record(transition@).len() == EVENT_HEADER_LEN
                    + transition@.key().namespace.len() + transition@.key().label.len()
                    + transition@.owner().len()
            },
        },
{
    let key = transition.key();
    let owner = transition.owner();
    let namespace: &[u8] = key.namespace();
    let label: &[u8] = key.label();
    let holder: &[u8] = owner.as_bytes();
    let max_payload: usize = min_usize(
        L::EVENT_RING_PAYLOAD_CAPACITY.saturating_sub(EVENT_HEADER_LEN),
        LOCK_STATE_PAYLOAD_MAX,
    );
    if namespace.len().saturating_add(label.len()).saturating_add(holder.len()) > max_payload {
        return Err(
            Error::EntryTooLarge {
                namespace_len: namespace.len(),
                key_len: label.len(),
                owner_len: holder.len(),
                max_payload,
            },
        );
    }
    let (frame_kind, acquired_at_ms, expires_at_ms): (u8, u64, u64) = match transition {
        LockTransition::Acquired(lease) => (
            FRAME_KIND_ACQUIRED,
            lease.acquired_at_ms,
            lease.expires_at_ms,
        ),
        LockTransition::Renewed(lease) => (
            FRAME_KIND_RENEWED,
            lease.acquired_at_ms,
            lease.expires_at_ms,
        ),
        LockTransition::Released { .. } => (FRAME_KIND_RELEASED, 0, 0),
    };
    let mut out: BytesMut = octets::with_capacity(
        EVENT_HEADER_LEN + namespace.len() + label.len() + holder.len(),
    );
    octets::put_u32_le(&mut out, MAGIC);
    octets::put_u8(&mut out, VERSION);
    octets::put_u16_le(&mut out, namespace.len() as u16);
    octets::put_u16_le(&mut out, label.len() as u16);
    octets::put_u16_le(&mut out, holder.len() as u16);
    octets::put_u64_le(&mut out, transition.lock_id().raw());
    octets::put_u64_le(&mut out, acquired_at_ms);
    octets::put_u64_le(&mut out, expires_at_ms);
    octets::put_slice(&mut out, namespace);
    octets::put_slice(&mut out, label);
    octets::put_slice(&mut out, holder);
    assert(written(out) =~= event_record(transition@));
    Ok((frame_kind, octets::freeze(out)))
}

/// What a frame of the event ring says, when it is a transition.
pub open spec fn decoded(frame: FrameView) -> Option<EventView> {
    let bytes = frame.payload;
    let namespace_len = u16_at(bytes, 5) as int;
    let key_len = u16_at(bytes, 7) as int;
    let owner_len = u16_at(bytes, 9) as int;
    let lock_id = NetId64(u64_at(bytes, 11));
    let acquired_at_ms = u64_at(bytes, 19);
    let expires_at_ms = u64_at(bytes, 27);
    let namespace_end = EVENT_HEADER_LEN + namespace_len;
    let key_end = namespace_end + key_len;
    let owner_end = key_end + owner_len;
    let key = KeyView {
        namespace: bytes.subrange(EVENT_HEADER_LEN as int, namespace_end),
        label: bytes.subrange(namespace_end, key_end),
    };
    let owner = bytes.subrange(key_end, owner_end);
    let lease = LeaseView {
        lock_id,
        key,
        owner,
        acquired_at_ms,
        expires_at_ms,
        state_revision: frame.ver,
    };
    let timed = acquired_at_ms > 0 && expires_at_ms > acquired_at_ms;
    if bytes.len() < EVENT_HEADER_LEN || u32_at(bytes, 0) != MAGIC || bytes[4] != VERSION
        || namespace_len == 0 || key_len == 0 || owner_len == 0 || owner_end != bytes.len()
        || namespace_len + key_len + owner_len > LOCK_STATE_PAYLOAD_MAX || frame.ver == 0 {
        None
    } else if frame.kind == FRAME_KIND_ACQUIRED && timed {
        Some(EventView { event_id: frame.id, transition: TransitionView::Acquired(lease) })
    } else if frame.kind == FRAME_KIND_RENEWED && timed {
        Some(EventView { event_id: frame.id, transition: TransitionView::Renewed(lease) })
    } else if frame.kind == FRAME_KIND_RELEASED && acquired_at_ms == 0 && expires_at_ms == 0 {
        Some(
            EventView {
                event_id: frame.id,
                transition: TransitionView::Released {
                    lock_id,
                    key,
                    owner,
                    state_revision: frame.ver,
                },
            },
        )
    } else {
        None
    }
}

/// What an optional event says.
pub open spec fn event_view(event: Option<LockEvent>) -> Option<EventView> {
    match event {
        Some(event) => Some(event@),
        None => None,
    }
}

/// Decodes a frame of the event ring.
pub fn decode(frame: &Frame) -> (event: Option<LockEvent>)
    ensures
        event_view(event) == decoded(frame@),
{
    let bytes: &[u8] = octets::as_slice(&frame.payload);
    if bytes.len() < EVENT_HEADER_LEN {
        return None;
    }
    if read_u32(bytes, 0) != MAGIC || bytes[4] != VERSION {
        return None;
    }
    let namespace_len: usize = read_u16(bytes, 5) as usize;
    let key_len: usize = read_u16(bytes, 7) as usize;
    let owner_len: usize = read_u16(bytes, 9) as usize;
    let lock_id = NetId64::from_raw(read_u64(bytes, 11));
    let acquired_at_ms: u64 = read_u64(bytes, 19);
    let expires_at_ms: u64 = read_u64(bytes, 27);
    let namespace_end: usize = EVENT_HEADER_LEN + namespace_len;
    let key_end: usize = namespace_end + key_len;
    let owner_end: usize = key_end + owner_len;
    if namespace_len == 0 || key_len == 0 || owner_len == 0 || owner_end != bytes.len()
        || namespace_len + key_len + owner_len > LOCK_STATE_PAYLOAD_MAX || frame.ver == 0 {
        return None;
    }
    let key = LockKey::from_parts(
        octets::section(&frame.payload, EVENT_HEADER_LEN, namespace_end),
        octets::section(&frame.payload, namespace_end, key_end),
    );
    let owner = LockOwner::new(octets::section(&frame.payload, key_end, owner_end));
    let timed: bool = acquired_at_ms > 0 && expires_at_ms > acquired_at_ms;
    let transition: LockTransition = if (frame.kind == FRAME_KIND_ACQUIRED || frame.kind
        == FRAME_KIND_RENEWED) && timed {
        let lease = LockLease {
            lock_id,
            key,
            owner,
            acquired_at_ms,
            expires_at_ms,
            state_revision: frame.ver,
        };
        if frame.kind == FRAME_KIND_ACQUIRED {
            LockTransition::Acquired(lease)
        } else {
            LockTransition::Renewed(lease)
        }
    } else if frame.kind == FRAME_KIND_RELEASED && acquired_at_ms == 0 && expires_at_ms == 0 {
        LockTransition::Released { lock_id, key, owner, state_revision: frame.ver }
    } else {
        return None;
    };
    Some(LockEvent { event_id: frame.id, transition })
}

/// A transition that was encoded is decoded to the same transition. A tenure
/// that begins at time zero, or ends before it begins, is not taken for one and
/// is left out.
pub proof fn law_transition_round_trip(id: NetId64, transition: TransitionView)
    requires
        transition.key().namespace.len() > 0,
        transition.key().label.len() > 0,
        transition.owner().len() > 0,
        transition.key().namespace.len() + transition.key().label.len() + transition.owner().len()
            <= LOCK_STATE_PAYLOAD_MAX,
        transition.state_revision() != 0,
        !(transition is Released) ==> 0 < times_of(transition).0 < times_of(transition).1,
    ensures
        decoded(
            FrameView {
                id,
                kind: frame_kind_of(transition),
                ver: transition.state_revision(),
                payload: event_record(transition),
            },
        ) == Some(EventView { event_id: id, transition }),
{
    let key = transition.key();
    let owner = transition.owner();
    let times = times_of(transition);
    let header = event_header(
        key.namespace.len() as u16,
        key.label.len() as u16,
        owner.len() as u16,
        transition.lock_id().0,
        times,
    );
    let bytes = event_record(transition);
    assert(header.len() == 35);
    assert(bytes.subrange(0, 35) =~= header);
    assert(header.subrange(0, 4) =~= le32(MAGIC));
    assert(header[4] == VERSION);
    assert(bytes[4] == bytes.subrange(0, 35)[4]);
    assert(header.subrange(5, 7) =~= le16(key.namespace.len() as u16));
    assert(header.subrange(7, 9) =~= le16(key.label.len() as u16));
    assert(header.subrange(9, 11) =~= le16(owner.len() as u16));
    assert(header.subrange(11, 19) =~= le64(transition.lock_id().0));
    assert(header.subrange(19, 27) =~= le64(times.0));
    assert(header.subrange(27, 35) =~= le64(times.1));
    lemma_stands_part(bytes, 0, header, 0, 4);
    lemma_stands_part(bytes, 0, header, 5, 7);
    lemma_stands_part(bytes, 0, header, 7, 9);
    lemma_stands_part(bytes, 0, header, 9, 11);
    lemma_stands_part(bytes, 0, header, 11, 19);
    lemma_stands_part(bytes, 0, header, 19, 27);
    lemma_stands_part(bytes, 0, header, 27, 35);
    lemma_read_u32(bytes, 0, MAGIC);
    lemma_read_u16(bytes, 5, key.namespace.len() as u16);
    lemma_read_u16(bytes, 7, key.label.len() as u16);
    lemma_read_u16(bytes, 9, owner.len() as u16);
    lemma_read_u64(bytes, 11, transition.lock_id().0);
    lemma_read_u64(bytes, 19, times.0);
    lemma_read_u64(bytes, 27, times.1);
    let namespace_end = 35 + key.namespace.len() as int;
    let key_end = namespace_end + key.label.len();
    assert(bytes.subrange(35, namespace_end) =~= key.namespace);
    assert(bytes.subrange(namespace_end, key_end) =~= key.label);
    assert(bytes.subrange(key_end, key_end + owner.len()) =~= owner);
}

/// Only the record of a transition is taken for one: a frame that is read as a transition
/// has its class, its revision and, byte for byte, its record.
pub proof fn law_only_records_are_transitions(frame: FrameView)
    ensures
        decoded(frame) matches Some(event) ==> {
            &&& event.event_id == frame.id
            &&& frame.kind == frame_kind_of(event.transition)
            &&& frame.ver == event.transition.state_revision()
            &&& frame.payload == event_record(event.transition)
            &&& frame.ver > 0
            &&& event.transition.key().namespace.len() > 0
            &&& event.transition.key().label.len() > 0
            &&& event.transition.owner().len() > 0
        },
{
    if decoded(frame) is Some {
        let transition = (decoded(frame)->0).transition;
        let bytes = frame.payload;
        let key = transition.key();
        let owner = transition.owner();
        let namespace_end = 35 + key.namespace.len() as int;
        let key_end = namespace_end + key.label.len();
        crate::codec::lemma_double_spells(bytes, 0);
        crate::codec::lemma_words_spell(bytes, 5);
        crate::codec::lemma_words_spell(bytes, 7);
        crate::codec::lemma_words_spell(bytes, 9);
        crate::codec::lemma_long_spells(bytes, 11);
        crate::codec::lemma_long_spells(bytes, 19);
        crate::codec::lemma_long_spells(bytes, 27);
        assert(bytes.subrange(4, 5) =~= seq![VERSION]);
        assert(bytes =~= bytes.subrange(0, 4) + bytes.subrange(4, 5) + bytes.subrange(5, 7)
            + bytes.subrange(7, 9) + bytes.subrange(9, 11) + bytes.subrange(11, 19)
            + bytes.subrange(19, 27) + bytes.subrange(27, 35) + bytes.subrange(35, namespace_end)
            + bytes.subrange(namespace_end, key_end) + bytes.subrange(
            key_end,
            bytes.len() as int,
        ));
        assert(event_record(transition) =~= bytes);
    }
}

/// Where the fields of a transition's record stand.
pub proof fn law_transition_record_layout(transition: TransitionView)
    requires
        transition.key().namespace.len() + transition.key().label.len() + transition.owner().len()
            <= LOCK_STATE_PAYLOAD_MAX,
    ensures
        ({
            let bytes = event_record(transition);
            let namespace = transition.key().namespace;
            let label = transition.key().label;
            let owner = transition.owner();
            &&& bytes.len() == 35 + namespace.len() + label.len() + owner.len()
            &&& u32_at(bytes, 0) == 0x4F4C_434B
            &&& bytes[4] == 2
            &&& u16_at(bytes, 5) == namespace.len()
            &&& u16_at(bytes, 7) == label.len()
            &&& u16_at(bytes, 9) == owner.len()
            &&& u64_at(bytes, 11) == transition.lock_id().0
            &&& transition matches TransitionView::Acquired(lease) ==> u64_at(bytes, 19)
                == lease.acquired_at_ms && u64_at(bytes, 27) == lease.expires_at_ms
            &&& transition matches TransitionView::Renewed(lease) ==> u64_at(bytes, 19)
                == lease.acquired_at_ms && u64_at(bytes, 27) == lease.expires_at_ms
            &&& transition is Released ==> u64_at(bytes, 19) == 0 && u64_at(bytes, 27) == 0
            &&& bytes.subrange(35, bytes.len() as int) == namespace + label + owner
        }),
{
    let bytes = event_record(transition);
    let key = transition.key();
    let owner = transition.owner();
    let times = times_of(transition);
    assert(bytes.subrange(0, 4) =~= le32(MAGIC));
    assert(bytes.subrange(5, 7) =~= le16(key.namespace.len() as u16));
    assert(bytes.subrange(7, 9) =~= le16(key.label.len() as u16));
    assert(bytes.subrange(9, 11) =~= le16(owner.len() as u16));
    assert(bytes.subrange(11, 19) =~= le64(transition.lock_id().0));
    assert(bytes.subrange(19, 27) =~= le64(times.0));
    assert(bytes.subrange(27, 35) =~= le64(times.1));
    lemma_read_u32(bytes, 0, MAGIC);
    lemma_read_u16(bytes, 5, key.namespace.len() as u16);
    lemma_read_u16(bytes, 7, key.label.len() as u16);
    lemma_read_u16(bytes, 9, owner.len() as u16);
    lemma_read_u64(bytes, 11, transition.lock_id().0);
    lemma_read_u64(bytes, 19, times.0);
    lemma_read_u64(bytes, 27, times.1);
    assert(bytes.subrange(35, bytes.len() as int) =~= key.namespace + key.label + owner);
}

} // verus!
