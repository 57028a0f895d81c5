//! The mutation records of the cache.
//!
//! A mutation names a store and a key, and for a put the chunks of the payload
//! ring that hold the value.
use bytes::{Bytes, BytesMut};
use vstd::prelude::*;

use crate::cache::error::Error;
use crate::cache::layout::CacheLayout;
use crate::codec::{
    le16, le32, le64, lemma_read_u16, lemma_read_u32, lemma_read_u64, lemma_stands_part, read_u16,
    read_u32, read_u64, u16_at, u32_at, u64_at,
};
use crate::id::{kind_of, NetId64};
use crate::numbers::{max_of, min_of, min_usize};
use crate::octets;
use crate::octets::{octets, written};
use crate::ring::{Frame, FrameView};

verus! {

broadcast use crate::codec::group_widths;

/// First byte of every mutation.
pub const PROTOCOL_VERSION: u8 = 2;

pub const FRAME_KIND_PUT: u8 = 1;

pub const FRAME_KIND_DELETE: u8 = 2;

pub const FRAME_KIND_RESET: u8 = 3;

pub const FRAME_KIND_PAYLOAD: u8 = 1;

/// Bytes before the store name: version, store and key lengths, deadline, first
/// payload id, payload version, chunk count and value length.
pub const MIN_MUTATION_HEADER_LEN: usize = 41;

/// Place of a mutation in the last-write-wins order of all lanes.
#[derive(Clone, Copy, Debug, PartialEq, Eq, Hash, Structural)]
pub struct CacheRevision {
    pub sequence: u64,
    pub mutation_id: NetId64,
}

impl CacheRevision {
    /// True when this revision comes before another: by sequence, then by id.
    pub open spec fn before(self, other: CacheRevision) -> bool {
        self.sequence < other.sequence || (self.sequence == other.sequence && self.mutation_id.0
            < other.mutation_id.0)
    }

    /// True when this revision comes before another: by sequence, then by id.
    pub fn is_before(self, other: CacheRevision) -> (yes: bool)
        ensures
            yes == self.before(other),
    {
        self.sequence < other.sequence || (self.sequence == other.sequence
            && self.mutation_id.raw() < other.mutation_id.raw())
    }
}

/// The order of revisions is total: of two different ones exactly one comes
/// first.
pub proof fn law_revisions_are_ordered(a: CacheRevision, b: CacheRevision)
    ensures
        a == b || a.before(b) || b.before(a),
        !(a.before(b) && b.before(a)),
        !a.before(a),
{
}

/// The order of revisions is transitive.
pub proof fn law_revision_order_is_transitive(
    a: CacheRevision,
    b: CacheRevision,
    c: CacheRevision,
)
    requires
        a.before(b),
        b.before(c),
    ensures
        a.before(c),
{
}

/// Address of one value in the payload ring.
#[derive(Clone, Copy, Debug, PartialEq, Eq, Structural)]
pub struct PayloadRef {
    pub first_id: NetId64,
    pub payload_version: u64,
    pub chunk_count: u32,
    pub value_len: u64,
}

/// One cache fact decoded from the mutation ring.
#[derive(Debug, PartialEq, Eq)]
pub enum CacheMutation {
    Put {
        store: Bytes,
        key: Bytes,
        revision: CacheRevision,
        expires_at_ms: Option<u64>,
        payload: PayloadRef,
    },
    Delete { store: Bytes, key: Bytes, revision: CacheRevision },
    Reset { store: Bytes, revision: CacheRevision },
}

/// What a mutation says.
pub enum MutationView {
    Put {
        store: Seq<u8>,
        key: Seq<u8>,
        revision: CacheRevision,
        expires_at_ms: Option<u64>,
        payload: PayloadRef,
    },
    Delete { store: Seq<u8>, key: Seq<u8>, revision: CacheRevision },
    Reset { store: Seq<u8>, revision: CacheRevision },
}

impl MutationView {
    /// The store that the mutation addresses.
    pub open spec fn store(self) -> Seq<u8> {
        match self {
            MutationView::Put { store, .. } => store,
            MutationView::Delete { store, .. } => store,
            MutationView::Reset { store, .. } => store,
        }
    }

    /// The mutation's place in the last-write-wins order.
    pub open spec fn revision(self) -> CacheRevision {
        match self {
            MutationView::Put { revision, .. } => revision,
            MutationView::Delete { revision, .. } => revision,
            MutationView::Reset { revision, .. } => revision,
        }
    }
}

impl View for CacheMutation {
    type V = MutationView;

    open spec fn view(&self) -> MutationView {
        match self {
            CacheMutation::Put { store, key, revision, expires_at_ms, payload } =>
            MutationView::Put {
                store: octets(*store),
                key: octets(*key),
                revision: *revision,
                expires_at_ms: *expires_at_ms,
                payload: *payload,
            },
            CacheMutation::Delete { store, key, revision } => MutationView::Delete {
                store: octets(*store),
                key: octets(*key),
                revision: *revision,
            },
            CacheMutation::Reset { store, revision } => MutationView::Reset {
                store: octets(*store),
                revision: *revision,
            },
        }
    }
}

/// What an optional mutation says.
pub open spec fn mutation_view(mutation: Option<CacheMutation>) -> Option<MutationView> {
    match mutation {
        Some(mutation) => Some(mutation@),
        None => None,
    }
}

impl CacheMutation {
    /// The store that the mutation addresses.
    pub fn store(&self) -> (store: &Bytes)
        ensures
            octets(*store) == self@.store(),
    {
        match self {
            CacheMutation::Put { store, .. } => store,
            CacheMutation::Delete { store, .. } => store,
            CacheMutation::Reset { store, .. } => store,
        }
    }

    /// The mutation's place in the last-write-wins order.
    pub fn revision(&self) -> (revision: CacheRevision)
        ensures
            revision == self@.revision(),
    {
        match self {
            CacheMutation::Put { revision, .. } => *revision,
            CacheMutation::Delete { revision, .. } => *revision,
            CacheMutation::Reset { revision, .. } => *revision,
        }
    }
}

/// The longest store name: it leaves room for a key of one byte.
pub open spec fn store_limit<L: CacheLayout>() -> int {
    min_of(
        max_of(L::MUTATION_RING_PAYLOAD_CAPACITY - (MIN_MUTATION_HEADER_LEN + 1), 0),
        u16::MAX as int,
    )
}

/// The longest key beside a store name of this length.
pub open spec fn key_limit<L: CacheLayout>(store_len: int) -> int {
    min_of(
        max_of(
            max_of(L::MUTATION_RING_PAYLOAD_CAPACITY - MIN_MUTATION_HEADER_LEN, 0) - store_len,
            0,
        ),
        u16::MAX as int,
    )
}

/// The longest store name.
pub fn max_store_len<L: CacheLayout>() -> (max: usize)
    ensures
        max == store_limit::<L>(),
{
    min_usize(
        L::MUTATION_RING_PAYLOAD_CAPACITY.saturating_sub(MIN_MUTATION_HEADER_LEN + 1),
        0xffff,
    )
}

/// The longest key beside a store name of this length.
pub fn max_key_len<L: CacheLayout>(store_len: usize) -> (max: usize)
    ensures
        max == key_limit::<L>(store_len as int),
{
    min_usize(
        L::MUTATION_RING_PAYLOAD_CAPACITY.saturating_sub(MIN_MUTATION_HEADER_LEN).saturating_sub(
            store_len,
        ),
        0xffff,
    )
}

/// Why a store name is refused.
pub open spec fn store_fault<L: CacheLayout>(store_len: nat) -> Option<Error> {
    if store_len == 0 {
        Some(Error::StoreEmpty)
    } else if store_len > store_limit::<L>() {
        Some(
            Error::StoreTooLarge {
                store_len: store_len as usize,
                max: store_limit::<L>() as usize,
            },
        )
    } else {
        None
    }
}

/// Why a key is refused, the store name being considered first.
pub open spec fn key_fault<L: CacheLayout>(store_len: nat, key_len: nat) -> Option<Error> {
    if store_fault::<L>(store_len) is Some {
        store_fault::<L>(store_len)
    } else if key_len == 0 {
        Some(Error::KeyEmpty)
    } else if key_len > key_limit::<L>(store_len as int) {
        Some(
            Error::KeyTooLarge {
                key_len: key_len as usize,
                max: key_limit::<L>(store_len as int) as usize,
            },
        )
    } else {
        None
    }
}

/// Checks a store name.
pub fn validate_store<L: CacheLayout>(store: &[u8]) -> (valid: Result<(), Error>)
    ensures
        match store_fault::<L>(store@.len()) {
            Some(error) => valid == Err::<(), Error>(error),
            None => valid is Ok,
        },
{
    if store.len() == 0 {
        return Err(Error::StoreEmpty);
    }
    let max: usize = max_store_len::<L>();
    if store.len() > max {
        return Err(Error::StoreTooLarge { store_len: store.len(), max });
    }
    Ok(())
}

/// Checks a store name and a key.
pub fn validate_key<L: CacheLayout>(store: &[u8], key: &[u8]) -> (valid: Result<(), Error>)
    ensures
        match key_fault::<L>(store@.len(), key@.len()) {
            Some(error) => valid == Err::<(), Error>(error),
            None => valid is Ok,
        },
{
    match validate_store::<L>(store) {
        Ok(_) => {},
        Err(error) => {
            return Err(error);
        },
    }
    if key.len() == 0 {
        return Err(Error::KeyEmpty);
    }
    let max: usize = max_key_len::<L>(store.len());
    if key.len() > max {
        return Err(Error::KeyTooLarge { key_len: key.len(), max });
    }
    Ok(())
}

/// The fixed part of a mutation record.
pub open spec fn mutation_header(
    store_len: u16,
    key_len: u16,
    expires_at_ms: u64,
    payload: PayloadRef,
) -> Seq<u8> {
    seq![PROTOCOL_VERSION] + le16(store_len) + le16(key_len) + le64(expires_at_ms) + le64(
        payload.first_id.0,
    ) + le64(payload.payload_version) + le32(payload.chunk_count) + le64(payload.value_len)
}

/// The payload reference of a mutation that carries no value.
pub open spec fn no_payload() -> PayloadRef {
    PayloadRef { first_id: NetId64(0), payload_version: 0, chunk_count: 0, value_len: 0 }
}

/// The deadline field: zero stands for none.
pub open spec fn deadline_field(expires_at_ms: Option<u64>) -> u64 {
    match expires_at_ms {
        Some(deadline) => deadline,
        None => 0,
    }
}

/// The record of a mutation.
pub open spec fn mutation_record(
    store: Seq<u8>,
    key: Seq<u8>,
    expires_at_ms: u64,
    payload: PayloadRef,
) -> Seq<u8> {
    mutation_header(store.len() as u16, key.len() as u16, expires_at_ms, payload) + store + key
}

fn encode_record(store: &[u8], key: &[u8], expires_at_ms: u64, payload: PayloadRef) -> (record:
    Bytes)
    requires
        store@.len() <= u16::MAX,
        key@.len() <= u16::MAX,
    ensures
        octets(record) == mutation_record(store@, key@, expires_at_ms, payload),
{
    let mut out: BytesMut = octets::with_capacity(
        MIN_MUTATION_HEADER_LEN + store.len() + key.len(),
    );
    octets::put_u8(&mut out, PROTOCOL_VERSION);
    octets::put_u16_le(&mut out, store.len() as u16);
    octets::put_u16_le(&mut out, key.len() as u16);
    octets::put_u64_le(&mut out, expires_at_ms);
    octets::put_u64_le(&mut out, payload.first_id.raw());
    octets::put_u64_le(&mut out, payload.payload_version);
    octets::put_u32_le(&mut out, payload.chunk_count);
    octets::put_u64_le(&mut out, payload.value_len);
    octets::put_slice(&mut out, store);
    octets::put_slice(&mut out, key);
    assert(written(out) =~= mutation_record(store@, key@, expires_at_ms, payload));
    octets::freeze(out)
}

/// The record of a put.
pub fn encode_put<L: CacheLayout>(
    store: &[u8],
    key: &[u8],
    expires_at_ms: Option<u64>,
    payload: PayloadRef,
) -> (record: Result<Bytes, Error>)
    ensures
        match key_fault::<L>(store@.len(), key@.len()) {
            Some(error) => record == Err::<Bytes, Error>(error),
            None => record is Ok && octets(record->Ok_0) == mutation_record(
                store@,
                key@,
                deadline_field(expires_at_ms),
                payload,
            ),
        },
{
    match validate_key::<L>(store, key) {
        Ok(_) => {},
        Err(error) => {
            return Err(error);
        },
    }
    let deadline: u64 = match expires_at_ms {
        Some(deadline) => deadline,
        None => 0,
    };
    Ok(encode_record(store, key, deadline, payload))
}

/// The record of a delete.
pub fn encode_delete<L: CacheLayout>(store: &[u8], key: &[u8]) -> (record: Result<Bytes, Error>)
    ensures
        match key_fault::<L>(store@.len(), key@.len()) {
            Some(error) => record == Err::<Bytes, Error>(error),
            None => record is Ok && octets(record->Ok_0) == mutation_record(
                store@,
                key@,
                0,
                no_payload(),
            ),
        },
{
    match validate_key::<L>(store, key) {
        Ok(_) => {},
        Err(error) => {
            return Err(error);
        },
    }
    Ok(
        encode_record(
            store,
            key,
            0,
            PayloadRef {
                first_id: NetId64::from_raw(0),
                payload_version: 0,
                chunk_count: 0,
                value_len: 0,
            },
        ),
    )
}

/// The record of a reset.
pub fn encode_reset<L: CacheLayout>(store: &[u8]) -> (record: Result<Bytes, Error>)
    ensures
        match store_fault::<L>(store@.len()) {
            Some(error) => record == Err::<Bytes, Error>(error),
            None => record is Ok && octets(record->Ok_0) == mutation_record(
                store@,
                Seq::empty(),
                0,
                no_payload(),
            ),
        },
{
    match validate_store::<L>(store) {
        Ok(_) => {},
        Err(error) => {
            return Err(error);
        },
    }
    let none: Vec<u8> = Vec::new();
    assert(none@ =~= Seq::<u8>::empty());
    Ok(
        encode_record(
            store,
            none.as_slice(),
            0,
            PayloadRef {
                first_id: NetId64::from_raw(0),
                payload_version: 0,
                chunk_count: 0,
                value_len: 0,
            },
        ),
    )
}

/// What a frame of the mutation ring says, when it is a mutation.
pub open spec fn decoded(frame: FrameView) -> Option<MutationView> {
    let bytes = frame.payload;
    let store_len = u16_at(bytes, 1) as int;
    let key_len = u16_at(bytes, 3) as int;
    let expires_at_ms = u64_at(bytes, 5);
    let payload = PayloadRef {
        first_id: NetId64(u64_at(bytes, 13)),
        payload_version: u64_at(bytes, 21),
        chunk_count: u32_at(bytes, 29),
        value_len: u64_at(bytes, 33),
    };
    let store_end = MIN_MUTATION_HEADER_LEN + store_len;
    let key_end = store_end + key_len;
    let store = bytes.subrange(MIN_MUTATION_HEADER_LEN as int, store_end);
    let key = bytes.subrange(store_end, key_end);
    let revision = CacheRevision { sequence: frame.ver, mutation_id: frame.id };
    let bare = expires_at_ms == 0 && payload == no_payload();
    if bytes.len() < MIN_MUTATION_HEADER_LEN || bytes[0] != PROTOCOL_VERSION || key_end
        != bytes.len() || store_len == 0 {
        None
    } else if frame.kind == FRAME_KIND_PUT && key_len > 0 && kind_of(payload.first_id.0) != 0
        && payload.chunk_count > 0 && payload.value_len <= usize::MAX {
        Some(
            MutationView::Put {
                store,
                key,
                revision,
                expires_at_ms: if expires_at_ms != 0 {
                    Some(expires_at_ms)
                } else {
                    None
                },
                payload,
            },
        )
    } else if frame.kind == FRAME_KIND_DELETE && key_len > 0 && bare {
        Some(MutationView::Delete { store, key, revision })
    } else if frame.kind == FRAME_KIND_RESET && key_len == 0 && bare {
        Some(MutationView::Reset { store, revision })
    } else {
        None
    }
}

/// Decodes a frame of the mutation ring.
pub fn decode(frame: &Frame) -> (mutation: Option<CacheMutation>)
    ensures
        mutation_view(mutation) == decoded(frame@),
{
    let bytes: &[u8] = octets::as_slice(&frame.payload);
    if bytes.len() < MIN_MUTATION_HEADER_LEN || bytes[0] != PROTOCOL_VERSION {
        return None;
    }
    let store_len: usize = read_u16(bytes, 1) as usize;
    let key_len: usize = read_u16(bytes, 3) as usize;
    let expires_at_ms: u64 = read_u64(bytes, 5);
    let first_payload_id = NetId64::from_raw(read_u64(bytes, 13));
    let payload_version: u64 = read_u64(bytes, 21);
    let chunk_count: u32 = read_u32(bytes, 29);
    let value_len: u64 = read_u64(bytes, 33);
    let store_end: usize = MIN_MUTATION_HEADER_LEN + store_len;
    let key_end: usize = store_end + key_len;
    if key_end != bytes.len() {
        return None;
    }
    let revision = CacheRevision { sequence: frame.ver, mutation_id: frame.id };
    let store = octets::section(&frame.payload, MIN_MUTATION_HEADER_LEN, store_end);
    let key = octets::section(&frame.payload, store_end, key_end);
    let bare: bool = expires_at_ms == 0 && first_payload_id.raw() == 0 && payload_version == 0
        && chunk_count == 0 && value_len == 0;
    if frame.kind == FRAME_KIND_PUT && store_len > 0 && key_len > 0 && first_payload_id.kind() != 0
        && chunk_count > 0 && value_len <= usize::MAX as u64 {
        Some(
            CacheMutation::Put {
                store,
                key,
                revision,
                expires_at_ms: if expires_at_ms != 0 {
                    Some(expires_at_ms)
                } else {
                    None
                },
                payload: PayloadRef {
                    first_id: first_payload_id,
                    payload_version,
                    chunk_count,
                    value_len,
                },
            },
        )
    } else if frame.kind == FRAME_KIND_DELETE && store_len > 0 && key_len > 0 && bare {
        Some(CacheMutation::Delete { store, key, revision })
    } else if frame.kind == FRAME_KIND_RESET && store_len > 0 && key_len == 0 && bare {
        Some(CacheMutation::Reset { store, revision })
    } else {
        None
    }
}

proof fn lemma_record_fields(
    store: Seq<u8>,
    key: Seq<u8>,
    expires_at_ms: u64,
    payload: PayloadRef,
)
    requires
        store.len() <= u16::MAX,
        key.len() <= u16::MAX,
    ensures
        ({
            let bytes = mutation_record(store, key, expires_at_ms, payload);
            let end = MIN_MUTATION_HEADER_LEN + store.len();
            &&& bytes.len() == end + key.len()
            &&& bytes[0] == PROTOCOL_VERSION
            &&& u16_at(bytes, 1) == store.len()
            &&& u16_at(bytes, 3) == key.len()
            &&& u64_at(bytes, 5) == expires_at_ms
            &&& u64_at(bytes, 13) == payload.first_id.0
            &&& u64_at(bytes, 21) == payload.payload_version
            &&& u32_at(bytes, 29) == payload.chunk_count
            &&& u64_at(bytes, 33) == payload.value_len
            &&& bytes.subrange(MIN_MUTATION_HEADER_LEN as int, end as int) == store
            &&& bytes.subrange(end as int, end + key.len()) == key
        }),
{
    let header = mutation_header(store.len() as u16, key.len() as u16, expires_at_ms, payload);
    let bytes = mutation_record(store, key, expires_at_ms, payload);
    assert(header.len() == 41);
    assert(bytes.subrange(0, 41) =~= header);
    assert(bytes[0] == header[0]);
    assert(header.subrange(1, 3) =~= le16(store.len() as u16));
    assert(header.subrange(3, 5) =~= le16(key.len() as u16));
    assert(header.subrange(5, 13) =~= le64(expires_at_ms));
    assert(header.subrange(13, 21) =~= le64(payload.first_id.0));
    assert(header.subrange(21, 29) =~= le64(payload.payload_version));
    assert(header.subrange(29, 33) =~= le32(payload.chunk_count));
    assert(header.subrange(33, 41) =~= le64(payload.value_len));
    lemma_stands_part(bytes, 0, header, 1, 3);
    lemma_stands_part(bytes, 0, header, 3, 5);
    lemma_stands_part(bytes, 0, header, 5, 13);
    lemma_stands_part(bytes, 0, header, 13, 21);
    lemma_stands_part(bytes, 0, header, 21, 29);
    lemma_stands_part(bytes, 0, header, 29, 33);
    lemma_stands_part(bytes, 0, header, 33, 41);
    lemma_read_u16(bytes, 1, store.len() as u16);
    lemma_read_u16(bytes, 3, key.len() as u16);
    lemma_read_u64(bytes, 5, expires_at_ms);
    lemma_read_u64(bytes, 13, payload.first_id.0);
    lemma_read_u64(bytes, 21, payload.payload_version);
    lemma_read_u32(bytes, 29, payload.chunk_count);
    lemma_read_u64(bytes, 33, payload.value_len);
    let end = 41 + store.len() as int;
    assert(bytes.subrange(41, end) =~= store);
    assert(bytes.subrange(end, end + key.len()) =~= key);
}

/// A put that was encoded is decoded to the same put. A deadline of zero stands
/// for none and is left out.
pub proof fn law_put_round_trip(
    id: NetId64,
    ver: u64,
    store: Seq<u8>,
    key: Seq<u8>,
    expires_at_ms: Option<u64>,
    payload: PayloadRef,
)
    requires
        0 < store.len() <= u16::MAX,
        0 < key.len() <= u16::MAX,
        expires_at_ms != Some(0u64),
        kind_of(payload.first_id.0) != 0,
        payload.chunk_count > 0,
        payload.value_len <= usize::MAX,
    ensures
        decoded(
            FrameView {
                id,
                kind: FRAME_KIND_PUT,
                ver,
                payload: mutation_record(store, key, deadline_field(expires_at_ms), payload),
            },
        ) == Some(
            MutationView::Put {
                store,
                key,
                revision: CacheRevision { sequence: ver, mutation_id: id },
                expires_at_ms,
                payload,
            },
        ),
{
    lemma_record_fields(store, key, deadline_field(expires_at_ms), payload);
}

/// A delete that was encoded is decoded to the same delete.
pub proof fn law_delete_round_trip(id: NetId64, ver: u64, store: Seq<u8>, key: Seq<u8>)
    requires
        0 < store.len() <= u16::MAX,
        0 < key.len() <= u16::MAX,
    ensures
        decoded(
            FrameView {
                id,
                kind: FRAME_KIND_DELETE,
                ver,
                payload: mutation_record(store, key, 0, no_payload()),
            },
        ) == Some(
            MutationView::Delete {
                store,
                key,
                revision: CacheRevision { sequence: ver, mutation_id: id },
            },
        ),
{
    lemma_record_fields(store, key, 0, no_payload());
}

/// A reset that was encoded is decoded to the same reset.
pub proof fn law_reset_round_trip(id: NetId64, ver: u64, store: Seq<u8>)
    requires
        0 < store.len() <= u16::MAX,
    ensures
        decoded(
            FrameView {
                id,
                kind: FRAME_KIND_RESET,
                ver,
                payload: mutation_record(store, Seq::empty(), 0, no_payload()),
            },
        ) == Some(
            MutationView::Reset {
                store,
                revision: CacheRevision { sequence: ver, mutation_id: id },
            },
        ),
{
    lemma_record_fields(store, Seq::empty(), 0, no_payload());
}

/// Only the record of a mutation is taken for one: a frame that is read as a mutation has
/// its class, its revision and, byte for byte, its record.
pub proof fn law_only_records_are_mutations(frame: FrameView)
    ensures
        decoded(frame) matches Some(mutation) ==> {
            &&& mutation.revision() == (CacheRevision {
                sequence: frame.ver,
                mutation_id: frame.id,
            })
            &&& mutation.store().len() > 0
            &&& match mutation {
                MutationView::Put { store, key, revision, expires_at_ms, payload } => {
                    &&& frame.kind == 1
                    &&& key.len() > 0
                    &&& expires_at_ms != Some(0u64)
                    &&& payload.chunk_count > 0
                    &&& frame.payload == mutation_record(
                        store,
                        key,
                        deadline_field(expires_at_ms),
                        payload,
                    )
                },
                MutationView::Delete { store, key, revision } => {
                    &&& frame.kind == 2
                    &&& key.len() > 0
                    &&& frame.payload == mutation_record(store, key, 0, no_payload())
                },
                MutationView::Reset { store, revision } => {
                    &&& frame.kind == 3
                    &&& frame.payload == mutation_record(store, Seq::empty(), 0, no_payload())
                },
            }
        },
{
    if decoded(frame) is Some {
        let bytes = frame.payload;
        let store_end = 41 + u16_at(bytes, 1);
        let len = bytes.len() as int;
        crate::codec::lemma_words_spell(bytes, 1);
        crate::codec::lemma_words_spell(bytes, 3);
        crate::codec::lemma_long_spells(bytes, 5);
        crate::codec::lemma_long_spells(bytes, 13);
        crate::codec::lemma_long_spells(bytes, 21);
        crate::codec::lemma_double_spells(bytes, 29);
        crate::codec::lemma_long_spells(bytes, 33);
        let store = bytes.subrange(41, store_end);
        let key = bytes.subrange(store_end, len);
        let payload = PayloadRef {
            first_id: NetId64(u64_at(bytes, 13)),
            payload_version: u64_at(bytes, 21),
            chunk_count: u32_at(bytes, 29),
            value_len: u64_at(bytes, 33),
        };
        assert(bytes.subrange(0, 1) =~= seq![PROTOCOL_VERSION]);
        assert(bytes =~= bytes.subrange(0, 1) + bytes.subrange(1, 3) + bytes.subrange(3, 5)
            + bytes.subrange(5, 13) + bytes.subrange(13, 21) + bytes.subrange(21, 29)
            + bytes.subrange(29, 33) + bytes.subrange(33, 41) + bytes.subrange(41, store_end)
            + bytes.subrange(store_end, len));
        assert(bytes =~= mutation_record(store, key, u64_at(bytes, 5), payload));
        if u16_at(bytes, 3) == 0 {
            assert(key =~= Seq::<u8>::empty());
        }
    }
}

/// Where the fields of a mutation's record stand.
pub proof fn law_mutation_record_layout(
    store: Seq<u8>,
    key: Seq<u8>,
    expires_at_ms: Option<u64>,
    payload: PayloadRef,
)
    requires
        store.len() <= u16::MAX,
        key.len() <= u16::MAX,
    ensures
        ({
            let bytes = mutation_record(store, key, deadline_field(expires_at_ms), payload);
            &&& bytes.len() == 41 + store.len() + key.len()
            &&& bytes[0] == 2
            &&& u16_at(bytes, 1) == store.len()
            &&& u16_at(bytes, 3) == key.len()
            &&& expires_at_ms is None ==> u64_at(bytes, 5) == 0
            &&& expires_at_ms matches Some(end) ==> u64_at(bytes, 5) == end
            &&& u64_at(bytes, 13) == payload.first_id.0
            &&& u64_at(bytes, 21) == payload.payload_version
            &&& u32_at(bytes, 29) == payload.chunk_count
            &&& u64_at(bytes, 33) == payload.value_len
            &&& bytes.subrange(41, bytes.len() as int) == store + key
        }),
{
    lemma_record_fields(store, key, deadline_field(expires_at_ms), payload);
    let bytes = mutation_record(store, key, deadline_field(expires_at_ms), payload);
    assert(bytes.subrange(41, bytes.len() as int) =~= store + key);
}

/// A revision is before another one exactly where its sequence is lower or, with one
/// sequence, its id.
pub proof fn law_revisions_go_by_sequence(a: CacheRevision, b: CacheRevision)
    ensures
        a.sequence < b.sequence ==> a.before(b) && !b.before(a),
        a.sequence == b.sequence ==> (a.before(b) <==> a.mutation_id.0 < b.mutation_id.0),
{
}

} // verus!
