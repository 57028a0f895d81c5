//! A fleet-shared byte store: one index over one ring of bytes.
//!
//! A record's bytes are written into the ring at the write cursor and filed
//! under a key of 128 bits. There is no expiry: the ring is the budget, and what
//! the cursor reaches is gone. A record that a reader holds is pinned, and the
//! cursor skips it.
pub mod history;
pub mod image;
pub mod index;
pub mod laws;

use vstd::array::array_as_slice;
use vstd::prelude::*;
use vstd::slice::slice_subrange;
use vstd::string::*;

use crate::arena::index::{
    apart, disjoint, find, find_place, first_open, forgotten, fresh, hasher, lemma_reserved,
    lemma_thinned, live_count, next_generation, places, reserve, reserved, slots_wf, thinned, Slot,
    SlotState,
};
use crate::decimal::{digits, push_number};
use crate::codec::{overwrite, read_u64, u64_at, write_over, zeroes};
use crate::numbers::min_of;
use crate::probe::{probing, Place};

verus! {

pub use crate::arena::index::{ARENA_BYTES, ARENA_RECORD_MAX, ARENA_SLOTS};
use crate::arena::index::{ARENA_ATTEMPTS, ARENA_CURSOR_MAX, ARENA_STRIDE_MAX};

/// The kind of the arena's segment.
pub const ARENA_KIND: u8 = 242;

/// Marks an arena segment.
pub const ARENA_MAGIC: u32 = 0x4152_454E;

/// The version of the segment's layout.
pub const ARENA_VERSION: u16 = 1;

/// Bytes of the segment's header.
pub const ARENA_HEADER_SIZE: u16 = 64;

/// Bytes of an index slot in the segment.
pub const ARENA_SLOT_SIZE: u32 = 128;

/// Why the arena refuses a record.
#[derive(Clone, Copy, Debug, PartialEq, Eq, Structural)]
pub enum Error {
    /// The record is over the record limit; nothing was written.
    TooLarge { len: usize, max: usize },
    /// There is no room that readers do not hold; nothing was written.
    Pinned,
}

/// What a record is filed under: the caller's digest of the real key.
#[derive(Clone, Copy, Debug, PartialEq, Eq, Structural, Hash)]
pub struct Key(pub u128);

impl Key {
    /// A key of this digest.
    pub fn new(digest: u128) -> (key: Key)
        ensures
            key.0 == digest,
    {
        Key(digest)
    }

    /// A key of a digest in bytes, the least significant one first.
    pub fn from_bytes(digest: [u8; 16]) -> (key: Key)
        ensures
            key.0 == u64_at(digest@, 0) + u64_at(digest@, 8) * 0x1_0000_0000_0000_0000,
    {
        let bytes: &[u8] = array_as_slice(&digest);
        let low: u64 = read_u64(bytes, 0);
        let high: u64 = read_u64(bytes, 8);
        Key(low as u128 + high as u128 * 0x1_0000_0000_0000_0000)
    }

    /// The digest.
    pub fn get(self) -> (digest: u128)
        ensures
            digest == self.0,
    {
        self.0
    }
}

/// What goes in: the bytes, and what the caller wants back beside them.
#[derive(Clone, Copy, Debug)]
pub struct Record<'a> {
    /// The body as stored.
    pub body: &'a [u8],
    /// An encoded form of the same body, with the caller's tag for it.
    pub encoded: Option<(&'a [u8], u8)>,
    pub stamp: u64,
    pub extra: u64,
}

/// What a record says.
#[verifier::ext_equal]
pub struct RecordView {
    pub body: Seq<u8>,
    pub encoded: Option<(Seq<u8>, u8)>,
    pub stamp: u64,
    pub extra: u64,
}

impl RecordView {
    /// The bytes of the encoded body.
    pub open spec fn encoded_bytes(self) -> Seq<u8> {
        match self.encoded {
            Some((bytes, tag)) => bytes,
            None => Seq::empty(),
        }
    }

    /// All the bytes that the ring keeps of the record.
    pub open spec fn bytes(self) -> Seq<u8> {
        self.body + self.encoded_bytes()
    }
}

impl View for Record<'_> {
    type V = RecordView;

    open spec fn view(&self) -> RecordView {
        RecordView {
            body: self.body@,
            encoded: match self.encoded {
                Some((bytes, tag)) => Some((bytes@, tag)),
                None => None,
            },
            stamp: self.stamp,
            extra: self.extra,
        }
    }
}

impl<'a> Record<'a> {
    /// A record of a body alone.
    pub fn body(body: &'a [u8]) -> (record: Record<'a>)
        ensures
            record@ == (RecordView { body: body@, encoded: None, stamp: 0, extra: 0 }),
    {
        Record { body, encoded: None, stamp: 0, extra: 0 }
    }

    /// The record with an encoded form of its body.
    pub fn encoded(self, encoded: &'a [u8], tag: u8) -> (record: Record<'a>)
        ensures
            record@ == (RecordView { encoded: Some((encoded@, tag)), ..self@ }),
    {
        Record { body: self.body, encoded: Some((encoded, tag)), stamp: self.stamp, extra: self.extra }
    }

    /// The record with a validator.
    pub fn stamp(self, stamp: u64) -> (record: Record<'a>)
        ensures
            record@ == (RecordView { stamp, ..self@ }),
    {
        Record { body: self.body, encoded: self.encoded, stamp, extra: self.extra }
    }

    /// The record with a second validator.
    pub fn extra(self, extra: u64) -> (record: Record<'a>)
        ensures
            record@ == (RecordView { extra, ..self@ }),
    {
        Record { body: self.body, encoded: self.encoded, stamp: self.stamp, extra }
    }
}

/// The fields by which a segment says how it is laid out.
#[derive(Clone, Copy, Debug, PartialEq, Eq, Structural)]
pub struct ArenaHeader {
    pub magic: u32,
    pub version: u16,
    pub header_size: u16,
    pub slots: u32,
    pub slot_size: u32,
    pub bytes: u64,
}

impl ArenaHeader {
    /// The header of a new segment.
    pub open spec fn current() -> ArenaHeader {
        ArenaHeader {
            magic: ARENA_MAGIC,
            version: ARENA_VERSION,
            header_size: ARENA_HEADER_SIZE,
            slots: ARENA_SLOTS as u32,
            slot_size: ARENA_SLOT_SIZE,
            bytes: ARENA_BYTES as u64,
        }
    }

    /// The header of a new segment.
    pub fn new() -> (header: ArenaHeader)
        ensures
            header == ArenaHeader::current(),
    {
        ArenaHeader {
            magic: ARENA_MAGIC,
            version: ARENA_VERSION,
            header_size: ARENA_HEADER_SIZE,
            slots: ARENA_SLOTS as u32,
            slot_size: ARENA_SLOT_SIZE,
            bytes: ARENA_BYTES as u64,
        }
    }

    /// True when a segment with this header can be used.
    pub fn compatible(&self) -> (compatible: bool)
        ensures
            compatible == (*self == ArenaHeader::current()),
    {
        *self == ArenaHeader::new()
    }
}

/// Bytes of the arena's segment: header, index and ring.
pub fn segment_size() -> (size: usize)
    ensures
        size == ARENA_HEADER_SIZE + ARENA_SLOTS * ARENA_SLOT_SIZE + ARENA_BYTES,
{
    ARENA_HEADER_SIZE as usize + ARENA_SLOTS * (ARENA_SLOT_SIZE as usize) + ARENA_BYTES
}

/// What an arena holds.
#[verifier::ext_equal]
pub struct ArenaView {
    pub slots: Seq<Slot>,
    pub ring: Seq<u8>,
    /// The write position, which only grows.
    pub cursor: u64,
    /// Grows with every reset.
    pub generation: u32,
}

impl ArenaView {
    /// An arena without records.
    pub open spec fn blank() -> ArenaView {
        ArenaView {
            slots: Seq::new(ARENA_SLOTS as nat, |i: int| Slot::blank()),
            ring: Seq::new(ARENA_BYTES as nat, |i: int| 0u8),
            cursor: 0,
            generation: 1,
        }
    }

    /// Searches work, and every record has its bytes inside the ring.
    pub open spec fn wf(self) -> bool {
        &&& slots_wf(self.slots)
        &&& self.ring.len() == ARENA_BYTES
    }

    /// True when a record can be filed: the write position is not at its end.
    pub open spec fn can_put(self) -> bool {
        self.cursor <= ARENA_CURSOR_MAX
    }

    /// True when one more reader can be counted on the record of a key.
    pub open spec fn can_get(self, key: u128) -> bool {
        self.pins(key) < u32::MAX
    }

    /// The record that a slot names.
    pub open spec fn record_at(self, i: int) -> RecordView {
        let slot = self.slots[i];
        let middle = slot.body_offset + slot.body_len;
        RecordView {
            body: self.ring.subrange(slot.body_offset as int, middle),
            encoded: match slot.encoding {
                Some(tag) => Some((self.ring.subrange(middle, slot.end()), tag)),
                None => None,
            },
            stamp: slot.stamp,
            extra: slot.extra,
        }
    }

    /// True when a slot is where lookups find a key.
    pub open spec fn filed_at(self, i: int, key: u128) -> bool {
        0 <= i < self.slots.len() && self.slots[i].live(key)
    }

    /// True when lookups find a key.
    pub open spec fn filed(self, key: u128) -> bool {
        exists|i: int| #[trigger] self.filed_at(i, key)
    }

    /// The record that a lookup finds under a key.
    pub open spec fn record(self, key: u128) -> Option<RecordView> {
        if self.filed(key) {
            Some(self.record_at(choose|i: int| #[trigger] self.filed_at(i, key)))
        } else {
            None
        }
    }

    /// How often readers hold the record that lookups find under a key.
    pub open spec fn pins(self, key: u128) -> u32 {
        if self.filed(key) {
            self.slots[choose|i: int| #[trigger] self.filed_at(i, key)].pins
        } else {
            0
        }
    }

    /// True when an entry's pin keeps its slot.
    pub open spec fn holds(self, entry: Entry) -> bool {
        &&& entry.slot < self.slots.len()
        &&& self.slots[entry.slot as int].pins > 0
        &&& entry.names(self.slots[entry.slot as int])
    }

    /// The slot of a record that is installed with a generation.
    pub open spec fn installed(
        generation: u32,
        key: u128,
        position: int,
        record: RecordView,
    ) -> Slot {
        Slot {
            state: SlotState::Live,
            key,
            pins: 0,
            generation,
            body_offset: position as u64,
            body_len: record.body.len() as u64,
            encoded_len: record.encoded_bytes().len() as u64,
            encoding: match record.encoded {
                Some((bytes, tag)) => Some(tag),
                None => None,
            },
            stamp: record.stamp,
            extra: record.extra,
        }
    }

    /// What filing a record under a key does.
    pub open spec fn is_put(
        self,
        key: u128,
        record: RecordView,
        after: ArenaView,
        result: Result<(), Error>,
    ) -> bool {
        let len = record.bytes().len() as int;
        if len > ARENA_RECORD_MAX {
            &&& result == Err::<(), Error>(
                Error::TooLarge {
                    len: min_of(len, usize::MAX as int) as usize,
                    max: ARENA_RECORD_MAX,
                },
            )
            &&& after == self
        } else {
            let (cleared, begin) = reserved(
                forgotten(self.slots, key),
                self.cursor as int,
                len,
                ARENA_ATTEMPTS as nat,
            );
            match begin {
                None => {
                    &&& result == Err::<(), Error>(Error::Pinned)
                    &&& after == (ArenaView { slots: cleared, ..self })
                },
                Some(begin) => {
                    let position = begin % ARENA_BYTES as int;
                    if forall|i: int| 0 <= i < cleared.len() ==> (#[trigger] cleared[i]).pins > 0 {
                        &&& result == Err::<(), Error>(Error::Pinned)
                        &&& after == (ArenaView {
                            slots: cleared,
                            cursor: (begin + len) as u64,
                            ..self
                        })
                    } else {
                        &&& result is Ok
                        &&& after.ring == overwrite(self.ring, position, record.bytes())
                        &&& after.cursor == begin + len
                        &&& after.generation == self.generation
                        &&& exists|place: int, generation: u32| #[trigger]
                            first_open(cleared, key, place) && #[trigger] fresh(
                                self.slots,
                                generation,
                            ) && after.slots == cleared.update(
                                place,
                                ArenaView::installed(generation, key, position, record),
                            )
                    }
                },
            }
        }
    }
}

/// A record that a reader holds. Its slot stays pinned, and its bytes
/// unwritten, until [`Arena::release`] takes the entry back.
#[derive(Debug)]
pub struct Entry {
    pub slot: usize,
    pub generation: u32,
    pub body: (u64, u64),
    pub encoded: Option<(u64, u64, u8)>,
    pub stamp: u64,
    pub extra: u64,
}

impl Entry {
    /// True when the entry names the record of this slot.
    pub open spec fn names(self, slot: Slot) -> bool {
        &&& self.generation == slot.generation
        &&& self.body == (slot.body_offset, slot.body_len)
        &&& self.encoded == match slot.encoding {
            Some(tag) => Some(
                ((slot.body_offset + slot.body_len) as u64, slot.encoded_len, tag),
            ),
            None => None,
        }
        &&& self.stamp == slot.stamp
        &&& self.extra == slot.extra
    }

    /// The body.
    pub fn body<'a>(&self, arena: &'a Arena) -> (body: &'a [u8])
        requires
            arena@.wf(),
            arena@.holds(*self),
        ensures
            body@ == arena@.record_at(self.slot as int).body,
    {
        assert(arena@.slots[self.slot as int].wf());
        assert(arena.ring@.len() == ARENA_BYTES);
        let ring: &[u8] = arena.ring.as_slice();
        slice_subrange(ring, self.body.0 as usize, (self.body.0 + self.body.1) as usize)
    }

    /// The encoded body and its tag, when one was stored.
    pub fn encoded<'a>(&self, arena: &'a Arena) -> (encoded: Option<(&'a [u8], u8)>)
        requires
            arena@.wf(),
            arena@.holds(*self),
        ensures
            match encoded {
                Some((bytes, tag)) => arena@.record_at(self.slot as int).encoded == Some(
                    (bytes@, tag),
                ),
                None => arena@.record_at(self.slot as int).encoded is None,
            },
            encoded is Some == self.encoded is Some,
    {
        assert(arena@.slots[self.slot as int].wf());
        assert(arena.ring@.len() == ARENA_BYTES);
        match self.encoded {
            Some((offset, len, tag)) => {
                let ring: &[u8] = arena.ring.as_slice();
                Some((slice_subrange(ring, offset as usize, (offset + len) as usize), tag))
            },
            None => None,
        }
    }

    /// The first validator.
    pub fn stamp(&self) -> (stamp: u64)
        ensures
            stamp == self.stamp,
    {
        self.stamp
    }

    /// The second validator.
    pub fn extra(&self) -> (extra: u64)
        ensures
            extra == self.extra,
    {
        self.extra
    }

    /// The record's generation: a later put of the same key gives another one, with a
    /// reset in between or not.
    pub fn generation(&self) -> (generation: u32)
        ensures
            generation == self.generation,
    {
        self.generation
    }

    /// The body as an owner of the pin.
    pub fn into_body(self) -> (body: HeldBody)
        ensures
            body.entry == self,
            !body.encoded,
    {
        HeldBody { entry: self, encoded: false }
    }

    /// The encoded body as an owner of the pin, or the entry back if there is
    /// none.
    pub fn into_encoded(self) -> (body: Result<HeldBody, Entry>)
        ensures
            match body {
                Ok(body) => self.encoded is Some && body.entry == self && body.encoded,
                Err(entry) => self.encoded is None && entry == self,
            },
    {
        if self.encoded.is_some() {
            Ok(HeldBody { entry: self, encoded: true })
        } else {
            Err(self)
        }
    }
}

/// One body of an entry, which owns the entry's pin.
#[derive(Debug)]
pub struct HeldBody {
    pub entry: Entry,
    pub encoded: bool,
}

impl HeldBody {
    /// The entry.
    pub fn entry(&self) -> (entry: &Entry)
        ensures
            *entry == self.entry,
    {
        &self.entry
    }

    /// The entry back, with its pin.
    pub fn into_entry(self) -> (entry: Entry)
        ensures
            entry == self.entry,
    {
        self.entry
    }

    /// The bytes of this body.
    pub fn as_ref<'a>(&self, arena: &'a Arena) -> (bytes: &'a [u8])
        requires
            arena@.wf(),
            arena@.holds(self.entry),
            self.encoded ==> self.entry.encoded is Some,
        ensures
            bytes@ == if self.encoded {
                (arena@.record_at(self.entry.slot as int).encoded->0).0
            } else {
                arena@.record_at(self.entry.slot as int).body
            },
    {
        if self.encoded {
            match self.entry.encoded(arena) {
                Some((bytes, _)) => bytes,
                None => self.entry.body(arena),
            }
        } else {
            self.entry.body(arena)
        }
    }
}

/// The fleet's arena.
#[derive(Debug)]
pub struct Arena {
    slots: Vec<Slot>,
    ring: Vec<u8>,
    cursor: u64,
    generation: u32,
}

impl View for Arena {
    type V = ArenaView;

    closed spec fn view(&self) -> ArenaView {
        ArenaView {
            slots: self.slots@,
            ring: self.ring@,
            cursor: self.cursor,
            generation: self.generation,
        }
    }
}

impl Arena {
    /// An arena without records.
    pub fn new() -> (arena: Arena)
        ensures
            arena@ == ArenaView::blank(),
            arena@.wf(),
            disjoint(arena@.slots),
            arena@.can_put(),
    {
        let slot = Slot {
            state: SlotState::Empty,
            key: 0,
            pins: 0,
            generation: 0,
            body_offset: 0,
            body_len: 0,
            encoded_len: 0,
            encoding: None,
            stamp: 0,
            extra: 0,
        };
        let slots: Vec<Slot> = vec![slot; ARENA_SLOTS];
        let ring: Vec<u8> = zeroes(ARENA_BYTES);
        let arena = Arena { slots, ring, cursor: 0, generation: 1 };
        assert(arena@.slots =~= ArenaView::blank().slots);
        arena
    }

    /// An arena of these parts.
    pub(crate) fn from_parts(
        slots: Vec<Slot>,
        ring: Vec<u8>,
        cursor: u64,
        generation: u32,
    ) -> (arena: Arena)
        ensures
            arena@ == (ArenaView { slots: slots@, ring: ring@, cursor, generation }),
    {
        Arena { slots, ring, cursor, generation }
    }

    /// The index, the ring, the write position and the generation.
    pub(crate) fn parts(&self) -> (parts: (&Vec<Slot>, &Vec<u8>, u64, u32))
        ensures
            parts.0@ == self@.slots,
            parts.1@ == self@.ring,
            parts.2 == self@.cursor,
            parts.3 == self@.generation,
    {
        (&self.slots, &self.ring, self.cursor, self.generation)
    }

    /// True when a record can be filed. The write position only grows, and ends before
    /// its number overflows.
    pub fn can_put(&self) -> (free: bool)
        ensures
            free == self@.can_put(),
    {
        self.cursor <= ARENA_CURSOR_MAX
    }

    /// True when the record of a key can be held once more: its readers are counted in
    /// 32 bits.
    pub fn can_get(&self, key: Key) -> (free: bool)
        requires
            self@.wf(),
        ensures
            free == self@.can_get(key.0),
    {
        match find(&self.slots, key.0) {
            None => {
                assert(!self@.filed(key.0));
                true
            },
            Some(index) => {
                proof {
                    assert(self@.filed_at(index as int, key.0));
                    crate::arena::laws::lemma_filed_at(self@, index as int, key.0);
                }
                self.slots[index].pins < u32::MAX
            },
        }
    }

    /// The record filed under a key, pinned.
    pub fn get(&mut self, key: Key) -> (entry: Option<Entry>)
        requires
            old(self)@.wf(),
            old(self)@.can_get(key.0),
        ensures
            final(self)@.wf(),
            disjoint(old(self)@.slots) ==> disjoint(final(self)@.slots),
            match entry {
                Some(entry) => {
                    let i = entry.slot as int;
                    &&& old(self)@.filed_at(i, key.0)
                    &&& old(self)@.record(key.0) == Some(old(self)@.record_at(i))
                    &&& final(self)@ == (ArenaView {
                        slots: old(self)@.slots.update(
                            i,
                            (Slot {
                                pins: (old(self)@.slots[i].pins + 1) as u32,
                                ..old(self)@.slots[i]
                            }),
                        ),
                        ..old(self)@
                    })
                    &&& final(self)@.holds(entry)
                },
                None => !old(self)@.filed(key.0) && final(self)@ == old(self)@,
            },
    {
        match find(&self.slots, key.0) {
            None => None,
            Some(index) => {
                let slot: Slot = self.slots[index];
                assert(slot.wf());
                proof {
                    crate::arena::laws::lemma_filed_at(self@, index as int, key.0);
                }
                let pinned = Slot { pins: slot.pins + 1, ..slot };
                self.slots.set(index, pinned);
                proof {
                    lemma_repinned(old(self)@.slots, index as int, pinned.pins);
                    assert(self@.slots =~= old(self)@.slots.update(index as int, pinned));
                }
                Some(
                    Entry {
                        slot: index,
                        generation: slot.generation,
                        body: (slot.body_offset, slot.body_len),
                        encoded: match slot.encoding {
                            Some(tag) => Some(
                                (slot.body_offset + slot.body_len, slot.encoded_len, tag),
                            ),
                            None => None,
                        },
                        stamp: slot.stamp,
                        extra: slot.extra,
                    },
                )
            },
        }
    }

    /// Takes an entry back: its record is pinned once less.
    pub fn release(&mut self, entry: Entry)
        requires
            old(self)@.wf(),
            old(self)@.holds(entry),
        ensures
            final(self)@.wf(),
            disjoint(old(self)@.slots) ==> disjoint(final(self)@.slots),
            final(self)@ == (ArenaView {
                slots: old(self)@.slots.update(
                    entry.slot as int,
                    (Slot {
                        pins: (old(self)@.slots[entry.slot as int].pins - 1) as u32,
                        ..old(self)@.slots[entry.slot as int]
                    }),
                ),
                ..old(self)@
            }),
    {
        let slot: Slot = self.slots[entry.slot];
        assert(slot.wf());
        let pinned = Slot { pins: slot.pins - 1, ..slot };
        self.slots.set(entry.slot, pinned);
        proof {
            lemma_repinned(old(self)@.slots, entry.slot as int, pinned.pins);
            assert(self@.slots =~= old(self)@.slots.update(entry.slot as int, pinned));
        }
    }

    /// Files a record under a key, in place of what was there. The bytes go to
    /// the ring at the cursor; whatever they land on is evicted, unless a reader
    /// holds it: then the cursor moves past it. Where the index is full, the first
    /// record on the key's way that no reader holds is evicted.
    pub fn put(&mut self, key: Key, record: Record<'_>) -> (filed: Result<(), Error>)
        requires
            old(self)@.wf(),
            old(self)@.can_put(),
        ensures
            final(self)@.wf(),
            disjoint(old(self)@.slots) ==> disjoint(final(self)@.slots),
            old(self)@.is_put(key.0, record@, final(self)@, filed),
            final(self)@.pins(key.0) == 0 || filed matches Err(Error::TooLarge { .. }),
            final(self)@.cursor <= old(self)@.cursor + ARENA_STRIDE_MAX,
            filed is Ok ==> {
                &&& final(self)@.record(key.0) == Some(record@)
                &&& forall|i: int| #[trigger]
                    final(self)@.filed_at(i, key.0) ==> fresh(
                        old(self)@.slots,
                        final(self)@.slots[i].generation,
                    )
            },
    {
        let encoded_len: usize = match record.encoded {
            Some((bytes, _)) => bytes.len(),
            None => 0,
        };
        assert(record@.bytes().len() == record.body@.len() + encoded_len);
        let total: usize = record.body.len().saturating_add(encoded_len);
        if total > ARENA_RECORD_MAX {
            return Err(Error::TooLarge { len: total, max: ARENA_RECORD_MAX });
        }
        let generation: u32 = next_generation(&self.slots);
        self.drop_record(key);
        let ghost without = self@;
        let begin: Option<u64> = reserve(&mut self.slots, self.cursor, total as u64);
        proof {
            lemma_reserved(
                without.slots,
                without.cursor as int,
                total as int,
                ARENA_ATTEMPTS as nat,
            );
            lemma_thinned(without.slots, self@.slots);
        }
        match begin {
            None => {
                assert(self@ =~= (ArenaView { slots: self@.slots, ..old(self)@ }));
                Err(Error::Pinned)
            },
            Some(begin) => {
                self.cursor = begin + total as u64;
                let position: u64 = begin % (ARENA_BYTES as u64);
                let ghost cleared = self@.slots;
                proof {
                    assert forall|i: int| 0 <= i < cleared.len() implies !(
                    #[trigger] cleared[i]).live(key.0) by {
                        assert(cleared[i] == without.slots[i] || cleared[i]
                            == without.slots[i].evicted());
                        assert(!without.slots[i].live(key.0));
                    }
                }
                match find_place(&self.slots, key.0) {
                    None => {
                        assert(self@ =~= (ArenaView {
                            slots: cleared,
                            cursor: self.cursor,
                            ..old(self)@
                        }));
                        Err(Error::Pinned)
                    },
                    Some(index) => {
                        self.write_bytes(position, &record);
                        let tag: Option<u8> = match record.encoded {
                            Some((_, tag)) => Some(tag),
                            None => None,
                        };
                        let filed = Slot {
                            state: SlotState::Live,
                            key: key.0,
                            pins: 0,
                            generation,
                            body_offset: position,
                            body_len: record.body.len() as u64,
                            encoded_len: encoded_len as u64,
                            encoding: tag,
                            stamp: record.stamp,
                            extra: record.extra,
                        };
                        self.slots.set(index, filed);
                        proof {
                            lemma_installed(cleared, index as int, key.0, filed);
                            assert(filed == ArenaView::installed(
                                generation,
                                key.0,
                                position as int,
                                record@,
                            ));
                            assert(first_open(cleared, key.0, index as int));
                            assert(fresh(old(self)@.slots, generation));
                            assert(self@.filed_at(index as int, key.0));
                            crate::arena::laws::lemma_filed_at(self@, index as int, key.0);
                            crate::arena::laws::law_put_then_get(
                                old(self)@,
                                key.0,
                                record@,
                                self@,
                            );
                            assert forall|i: int| #[trigger]
                                self@.filed_at(i, key.0) implies i == index by {
                                if i != index {
                                    assert(!cleared[i].live(key.0));
                                }
                            }
                        }
                        Ok(())
                    },
                }
            },
        }
    }

    /// Takes the record of a key out of the index.
    fn drop_record(&mut self, key: Key) -> (found: bool)
        requires
            old(self)@.wf(),
        ensures
            final(self)@.wf(),
            disjoint(old(self)@.slots) ==> disjoint(final(self)@.slots),
            final(self)@ == (ArenaView {
                slots: forgotten(old(self)@.slots, key.0),
                ..old(self)@
            }),
            found == old(self)@.filed(key.0),
            forall|i: int|
                0 <= i < final(self)@.slots.len() ==> !(#[trigger] final(self)@.slots[i]).live(key.0),
    {
        let ghost before = self@.slots;
        match find(&self.slots, key.0) {
            None => {
                assert(forgotten(before, key.0) =~= before);
                false
            },
            Some(index) => {
                let slot: Slot = self.slots[index];
                self.slots.set(index, slot.evict());
                proof {
                    assert(old(self)@.filed_at(index as int, key.0));
                    let all = places(before);
                    assert forall|i: int| 0 <= i < before.len() && i != index implies !(
                    #[trigger] before[i]).live(key.0) by {
                        if before[i].live(key.0) {
                            assert(all[i] == Place::Held(key.0));
                            assert(all[index as int] == Place::Held(key.0));
                        }
                    }
                    assert(self@.slots =~= forgotten(before, key.0));
                    assert(thinned(before, self@.slots));
                    lemma_thinned(before, self@.slots);
                }
                true
            },
        }
    }

    /// Writes the bytes of a record into the ring.
    fn write_bytes(&mut self, position: u64, record: &Record<'_>)
        requires
            position + record@.bytes().len() <= old(self)@.ring.len(),
            old(self)@.ring.len() == ARENA_BYTES,
        ensures
            final(self)@ == (ArenaView {
                ring: overwrite(old(self)@.ring, position as int, record@.bytes()),
                ..old(self)@
            }),
    {
        assert(record@.bytes().len() == record.body@.len() + record@.encoded_bytes().len());
        write_over(&mut self.ring, position as usize, record.body);
        match record.encoded {
            Some((encoded, _)) => {
                write_over(&mut self.ring, position as usize + record.body.len(), encoded);
            },
            None => {},
        }
        assert(self.ring@ =~= overwrite(old(self)@.ring, position as int, record@.bytes()));
    }

    /// Drops the record of a key. A reader that holds it keeps it. Says whether
    /// there was one.
    pub fn forget(&mut self, key: Key) -> (found: bool)
        requires
            old(self)@.wf(),
        ensures
            final(self)@.wf(),
            disjoint(old(self)@.slots) ==> disjoint(final(self)@.slots),
            found == old(self)@.filed(key.0),
            final(self)@ == (ArenaView {
                slots: forgotten(old(self)@.slots, key.0),
                ..old(self)@
            }),
    {
        self.drop_record(key)
    }

    /// Empties the index: every lookup misses from here on. A reader that holds
    /// a record keeps it. Gives the number of records that were live.
    pub fn reset(&mut self) -> (live: usize)
        requires
            old(self)@.wf(),
        ensures
            final(self)@.wf(),
            disjoint(old(self)@.slots) ==> disjoint(final(self)@.slots),
            live == live_count(old(self)@.slots),
            final(self)@ == (ArenaView {
                slots: old(self)@.slots.map_values(|slot: Slot| slot.evicted()),
                generation: if old(self)@.generation == u32::MAX {
                    0
                } else {
                    (old(self)@.generation + 1) as u32
                },
                ..old(self)@
            }),
    {
        let live: usize = self.len();
        let ghost before = self@.slots;
        let mut index: usize = 0;
        while index < self.slots.len()
            invariant
                index <= self.slots@.len(),
                self.slots@.len() == before.len(),
                self.ring@ == old(self)@.ring,
                self.cursor == old(self)@.cursor,
                self.generation == old(self)@.generation,
                forall|i: int|
                    index <= i < before.len() ==> #[trigger] self.slots@[i] == before[i],
                forall|i: int|
                    0 <= i < index ==> #[trigger] self.slots@[i] == before[i].evicted(),
            decreases self.slots@.len() - index,
        {
            let slot: Slot = self.slots[index];
            self.slots.set(index, slot.evict());
            index = index + 1;
        }
        self.generation = self.generation.wrapping_add(1);
        proof {
            lemma_thinned(before, self@.slots);
            assert(self@.slots =~= before.map_values(|slot: Slot| slot.evicted()));
        }
        live
    }

    /// Live records.
    pub fn len(&self) -> (live: usize)
        ensures
            live == live_count(self@.slots),
            live <= self@.slots.len(),
    {
        let mut live: usize = 0;
        let mut index: usize = 0;
        assert(self@.slots.subrange(0, 0) =~= Seq::<Slot>::empty());
        while index < self.slots.len()
            invariant
                live <= index <= self.slots@.len(),
                self@.slots == self.slots@,
                live == live_count(self@.slots.subrange(0, index as int)),
            decreases self.slots@.len() - index,
        {
            assert(self@.slots.subrange(0, index + 1).drop_last() =~= self@.slots.subrange(
                0,
                index as int,
            ));
            if self.slots[index].state == SlotState::Live {
                live = live + 1;
            }
            index = index + 1;
        }
        assert(self@.slots.subrange(0, self@.slots.len() as int) =~= self@.slots);
        live
    }

    /// True when no record is live.
    pub fn is_empty(&self) -> (empty: bool)
        ensures
            empty == (live_count(self@.slots) == 0),
    {
        self.len() == 0
    }

    /// Grows with every reset.
    pub fn generation(&self) -> (generation: u32)
        ensures
            generation == self@.generation,
    {
        self.generation
    }
}

/// Counting readers on a record keeps the index well formed.
proof fn lemma_repinned(slots: Seq<Slot>, i: int, pins: u32)
    requires
        slots_wf(slots),
        0 <= i < slots.len(),
        slots[i].named(),
    ensures
        slots_wf(slots.update(i, (Slot { pins, ..slots[i] }))),
        disjoint(slots) ==> disjoint(slots.update(i, (Slot { pins, ..slots[i] }))),
{
    let after = slots.update(i, (Slot { pins, ..slots[i] }));
    assert(slots[i].wf());
    assert(places(after) =~= places(slots));
    assert forall|j: int| 0 <= j < after.len() implies (#[trigger] after[j]).wf() by {
        assert(slots[j].wf());
    }
    assert forall|j: int, k: int|
        disjoint(slots) && 0 <= j < after.len() && 0 <= k < after.len() && j != k && (
        #[trigger] after[j]).named() && (#[trigger] after[k]).named() implies apart(
        after[j],
        after[k],
    ) by {
        assert(slots[j].named());
        assert(slots[k].named());
        assert(apart(slots[j], slots[k]));
    }
}

/// Installing a record in a slot that can take it, at bytes that no record
/// meets, keeps the index well formed.
proof fn lemma_installed(slots: Seq<Slot>, place: int, key: u128, filed: Slot)
    requires
        slots_wf(slots),
        0 <= place < slots.len(),
        filed.live(key),
        filed.wf(),
        probing(
            places(slots).update(place, Place::Held(key)),
            hasher(),
        ),
        forall|i: int|
            0 <= i < slots.len() ==> !(#[trigger] slots[i]).meets(
                filed.body_offset as int,
                filed.end(),
            ),
    ensures
        slots_wf(slots.update(place, filed)),
        disjoint(slots) ==> disjoint(slots.update(place, filed)),
{
    let after = slots.update(place, filed);
    assert(places(after) =~= places(slots).update(place, Place::Held(key)));
    assert forall|j: int| 0 <= j < after.len() implies (#[trigger] after[j]).wf() by {
        assert(slots[j].wf());
    }
    assert forall|j: int, k: int|
        disjoint(slots) && 0 <= j < after.len() && 0 <= k < after.len() && j != k && (
        #[trigger] after[j]).named() && (#[trigger] after[k]).named() implies apart(
        after[j],
        after[k],
    ) by {
        if j == place {
            assert(!slots[k].meets(filed.body_offset as int, filed.end()));
        } else if k == place {
            assert(!slots[j].meets(filed.body_offset as int, filed.end()));
        } else {
            assert(apart(slots[j], slots[k]));
        }
    }
}

impl Error {
    /// The error, in words.
    pub open spec fn text(self) -> Seq<char> {
        match self {
            Error::TooLarge { len, max } => "record of "@ + digits(len as nat)
                + " bytes exceeds the arena record limit of "@ + digits(max as nat),
            Error::Pinned => "the arena has no unpinned room for the record"@,
        }
    }

    /// The error, in words.
    pub fn to_string(&self) -> (text: String)
        ensures
            text@ == self.text(),
    {
        match self {
            Error::TooLarge { len, max } => {
                let mut text: String = "record of ".to_owned();
                push_number(&mut text, *len as u64);
                text.append(" bytes exceeds the arena record limit of ");
                push_number(&mut text, *max as u64);
                text
            },
            Error::Pinned => "the arena has no unpinned room for the record".to_owned(),
        }
    }
}

} // verus!
