//! The arena as it stands in shared memory: header, index and ring.
use vstd::prelude::*;
use vstd::slice::slice_subrange;

use crate::arena::index::{hasher, low_half, places, Slot, SlotState};
use crate::arena::{
    Arena, ArenaHeader, ArenaView, ARENA_BYTES, ARENA_HEADER_SIZE, ARENA_MAGIC, ARENA_SLOTS,
    ARENA_SLOT_SIZE, ARENA_VERSION,
};
use crate::codec::{
    le32, le64, lemma_read_u32, lemma_read_u64, push_u32, push_u64, read_u16, read_u32, read_u64,
    to_vec, u16_at, u32_at, u64_at,
};
use crate::probe::{
    home_of, lemma_probed_inside, lemma_reachable, lemma_steps, probe_index, probed, probing,
    reachable, steps_to, unmet, Place,
};
use crate::table::{flat, header_bytes, lemma_flat, lemma_header, push_zeroes, zeros, StateHeader};

verus! {

broadcast use crate::codec::group_widths;

/// Why a segment cannot be opened as an arena.
#[derive(Clone, Copy, Debug, PartialEq, Eq, Structural)]
pub enum ArenaFault {
    /// The segment is smaller than an arena.
    TooSmall { actual: usize, requested: usize },
    /// The segment's header is another one.
    Incompatible,
}

/// Where the ring begins.
pub const RING_OFFSET: usize = 524_352;

/// Bytes of the whole segment.
pub const SEGMENT_SIZE: usize = 67_633_216;

/// The byte of a slot's state.
pub open spec fn state_byte(state: SlotState) -> u8 {
    match state {
        SlotState::Empty => 0,
        SlotState::Live => 1,
        SlotState::Retired => 2,
    }
}

/// The key of two halves.
pub open spec fn joined(low: u64, high: u64) -> u128 {
    (low + high * 0x1_0000_0000_0000_0000) as u128
}

/// The upper half of a key.
pub open spec fn high_half(key: u128) -> u64 {
    (key as int / 0x1_0000_0000_0000_0000) as u64
}

/// The byte of an encoded body's tag.
pub open spec fn tag_byte(encoding: Option<u8>) -> u8 {
    match encoding {
        Some(tag) => tag,
        None => 0,
    }
}

/// Where the encoded body begins: right behind the body. An empty one that was stored
/// begins at no place of the ring, which tells it from none.
pub open spec fn encoded_offset(slot: Slot) -> u64 {
    if slot.encoding is Some && slot.encoded_len == 0 {
        u64::MAX
    } else {
        (slot.body_offset + slot.body_len) as u64
    }
}

/// The bytes of a slot.
pub open spec fn slot_bytes(slot: Slot) -> Seq<u8> {
    seq![state_byte(slot.state), tag_byte(slot.encoding), 0u8, 0u8] + le32(slot.pins) + le32(
        slot.generation,
    ) + zeros(4) + le64(low_half(slot.key)) + le64(high_half(slot.key)) + le64(slot.body_offset)
        + le64(slot.body_len) + le64(encoded_offset(slot)) + le64(slot.encoded_len) + le64(
        slot.stamp,
    ) + le64(slot.extra) + zeros(48)
}

/// True when the record that the bytes of a slot name lies inside the ring.
pub open spec fn inside(bytes: Seq<u8>) -> bool {
    u64_at(bytes, 32) + u64_at(bytes, 40) + u64_at(bytes, 56) <= ARENA_BYTES
}

/// The slot of some bytes. An unused slot says nothing but its generation. What is not
/// a record of the ring is one that lookups do not find, and has no bytes.
pub open spec fn slot_in(bytes: Seq<u8>) -> Slot {
    let generation = u32_at(bytes, 8);
    if bytes[0] == 0 {
        Slot { generation, ..Slot::blank() }
    } else {
        let slot = Slot {
            state: SlotState::Retired,
            key: joined(u64_at(bytes, 16), u64_at(bytes, 24)),
            pins: u32_at(bytes, 4),
            generation,
            body_offset: 0,
            body_len: 0,
            encoded_len: 0,
            encoding: None,
            stamp: u64_at(bytes, 64),
            extra: u64_at(bytes, 72),
        };
        if !inside(bytes) {
            slot
        } else {
            Slot {
                state: if bytes[0] == 1 {
                    SlotState::Live
                } else {
                    SlotState::Retired
                },
                body_offset: u64_at(bytes, 32),
                body_len: u64_at(bytes, 40),
                encoded_len: u64_at(bytes, 56),
                encoding: if u64_at(bytes, 56) > 0 || u64_at(bytes, 48) == u64::MAX {
                    Some(bytes[1])
                } else {
                    None
                },
                ..slot
            }
        }
    }
}

/// A slot that was written is read back.
pub proof fn lemma_slot_round_trip(slot: Slot)
    requires
        slot.wf(),
    ensures
        slot_bytes(slot).len() == 128,
        slot_in(slot_bytes(slot)) == slot,
{
    let bytes = slot_bytes(slot);
    assert(bytes[0] == state_byte(slot.state));
    assert(bytes[1] == tag_byte(slot.encoding));
    assert(bytes.subrange(4, 8) =~= le32(slot.pins));
    assert(bytes.subrange(8, 12) =~= le32(slot.generation));
    assert(bytes.subrange(16, 24) =~= le64(low_half(slot.key)));
    assert(bytes.subrange(24, 32) =~= le64(high_half(slot.key)));
    assert(bytes.subrange(32, 40) =~= le64(slot.body_offset));
    assert(bytes.subrange(40, 48) =~= le64(slot.body_len));
    assert(bytes.subrange(48, 56) =~= le64(encoded_offset(slot)));
    assert(bytes.subrange(56, 64) =~= le64(slot.encoded_len));
    assert(bytes.subrange(64, 72) =~= le64(slot.stamp));
    assert(bytes.subrange(72, 80) =~= le64(slot.extra));
    lemma_read_u32(bytes, 4, slot.pins);
    lemma_read_u32(bytes, 8, slot.generation);
    lemma_read_u64(bytes, 16, low_half(slot.key));
    lemma_read_u64(bytes, 24, high_half(slot.key));
    lemma_read_u64(bytes, 32, slot.body_offset);
    lemma_read_u64(bytes, 40, slot.body_len);
    lemma_read_u64(bytes, 48, encoded_offset(slot));
    lemma_read_u64(bytes, 56, slot.encoded_len);
    lemma_read_u64(bytes, 64, slot.stamp);
    lemma_read_u64(bytes, 72, slot.extra);
}

/// Writes the bytes of a slot behind what is there.
pub fn push_slot(bytes: &mut Vec<u8>, slot: &Slot)
    requires
        slot.body_offset + slot.body_len <= u64::MAX,
    ensures
        final(bytes)@ == old(bytes)@ + slot_bytes(*slot),
{
    bytes.push(
        match slot.state {
            SlotState::Empty => 0,
            SlotState::Live => 1,
            SlotState::Retired => 2,
        },
    );
    bytes.push(
        match slot.encoding {
            Some(tag) => tag,
            None => 0,
        },
    );
    push_zeroes(bytes, 2);
    push_u32(bytes, slot.pins);
    push_u32(bytes, slot.generation);
    push_zeroes(bytes, 4);
    push_u64(bytes, (slot.key % 0x1_0000_0000_0000_0000) as u64);
    push_u64(bytes, (slot.key / 0x1_0000_0000_0000_0000) as u64);
    push_u64(bytes, slot.body_offset);
    push_u64(bytes, slot.body_len);
    push_u64(
        bytes,
        if slot.encoding.is_some() && slot.encoded_len == 0 {
            u64::MAX
        } else {
            slot.body_offset + slot.body_len
        },
    );
    push_u64(bytes, slot.encoded_len);
    push_u64(bytes, slot.stamp);
    push_u64(bytes, slot.extra);
    push_zeroes(bytes, 48);
    assert(bytes@ =~= old(bytes)@ + slot_bytes(*slot));
}

/// Reads the bytes of a slot.
pub fn read_slot(bytes: &[u8]) -> (slot: Slot)
    requires
        bytes@.len() == 128,
    ensures
        slot == slot_in(bytes@),
        slot.wf(),
{
    let generation: u32 = read_u32(bytes, 8);
    if bytes[0] == 0 {
        return Slot {
            state: SlotState::Empty,
            key: 0,
            pins: 0,
            generation,
            body_offset: 0,
            body_len: 0,
            encoded_len: 0,
            encoding: None,
            stamp: 0,
            extra: 0,
        };
    }
    let low: u64 = read_u64(bytes, 16);
    let high: u64 = read_u64(bytes, 24);
    let mut slot = Slot {
        state: SlotState::Retired,
        key: low as u128 + high as u128 * 0x1_0000_0000_0000_0000,
        pins: read_u32(bytes, 4),
        generation,
        body_offset: 0,
        body_len: 0,
        encoded_len: 0,
        encoding: None,
        stamp: read_u64(bytes, 64),
        extra: read_u64(bytes, 72),
    };
    let limit: u64 = ARENA_BYTES as u64;
    let body_offset: u64 = read_u64(bytes, 32);
    let body_len: u64 = read_u64(bytes, 40);
    let encoded_len: u64 = read_u64(bytes, 56);
    if body_offset <= limit && body_len <= limit - body_offset && encoded_len <= limit
        - body_offset - body_len {
        if bytes[0] == 1 {
            slot.state = SlotState::Live;
        }
        slot.body_offset = body_offset;
        slot.body_len = body_len;
        slot.encoded_len = encoded_len;
        if encoded_len > 0 || read_u64(bytes, 48) == u64::MAX {
            slot.encoding = Some(bytes[1]);
        }
    }
    slot
}

/// The shared fields of the header.
pub open spec fn arena_fields() -> StateHeader {
    StateHeader {
        magic: ARENA_MAGIC,
        version: ARENA_VERSION,
        header_size: ARENA_HEADER_SIZE,
        capacity: ARENA_SLOTS as u32,
        slot_size: ARENA_SLOT_SIZE,
    }
}

/// What follows the shared fields of the header.
pub open spec fn arena_rest(view: ArenaView) -> Seq<u8> {
    le64(ARENA_BYTES as u64) + le64(view.cursor) + le32(view.generation) + zeros(28)
}

/// The bytes of slots.
pub open spec fn slot_images(slots: Seq<Slot>) -> Seq<Seq<u8>> {
    slots.map_values(|slot: Slot| slot_bytes(slot))
}

/// The segment of an arena.
pub open spec fn image(view: ArenaView) -> Seq<u8> {
    header_bytes(arena_fields(), arena_rest(view)) + flat(slot_images(view.slots)) + view.ring
}

/// The bytes of a slot in a segment.
pub open spec fn slot_section(bytes: Seq<u8>, i: int) -> Seq<u8> {
    bytes.subrange(64 + i * 128, 64 + i * 128 + 128)
}

/// What the slots of a segment hold, each by itself.
pub open spec fn found_in(bytes: Seq<u8>) -> Seq<Slot> {
    Seq::new(ARENA_SLOTS as nat, |i: int| slot_in(slot_section(bytes, i)))
}

/// The arena in a segment. A record at which a search for its key does not end, as an
/// unused slot or the same key comes before, is one that lookups do not find.
pub open spec fn arena_of(bytes: Seq<u8>) -> ArenaView {
    ArenaView {
        slots: Seq::new(
            ARENA_SLOTS as nat,
            |i: int|
                if reachable(places(found_in(bytes)), hasher(), i) {
                    found_in(bytes)[i]
                } else {
                    found_in(bytes)[i].evicted()
                },
        ),
        ring: bytes.subrange(RING_OFFSET as int, SEGMENT_SIZE as int),
        cursor: u64_at(bytes, 24),
        generation: u32_at(bytes, 32),
    }
}

/// Whatever the slots of a segment hold, searches work in the arena.
pub proof fn lemma_searches_work(bytes: Seq<u8>)
    requires
        bytes.len() >= SEGMENT_SIZE,
        forall|i: int| 0 <= i < ARENA_SLOTS ==> (#[trigger] found_in(bytes)[i]).wf(),
    ensures
        arena_of(bytes).wf(),
{
    let slots = arena_of(bytes).slots;
    let raw = places(found_in(bytes));
    let all = places(slots);
    let capacity = ARENA_SLOTS as int;
    assert forall|i: int| 0 <= i < all.len() implies #[trigger] reachable(all, hasher(), i) by {
        assert(all[i] == slots[i].place());
        assert(raw[i] == found_in(bytes)[i].place());
        if all[i] is Held {
            let key = all[i]->Held_0;
            let home = home_of(hasher()(key), capacity);
            let end = steps_to(home, i, capacity);
            assert forall|e: int| 0 <= e < end implies {
                let reached = #[trigger] all[probed(home, e, capacity)];
                reached != Place::Held(key) && !(reached is Empty)
            } by {
                lemma_probed_inside(home, e, capacity);
                let j = probed(home, e, capacity);
                assert(all[j] == slots[j].place());
                assert(raw[j] == found_in(bytes)[j].place());
                assert(raw[probed(home, e, capacity)] != Place::Held(key));
            }
        }
    }
    lemma_reachable(all, hasher());
    assert forall|i: int| 0 <= i < slots.len() implies (#[trigger] slots[i]).wf() by {
        assert(found_in(bytes)[i].wf());
    }
}

/// A record in a slot of a segment is the one of its key where a search for the key,
/// along the slots as they are, ends at the slot.
pub proof fn law_records_are_what_a_search_finds(bytes: Seq<u8>, key: u128, i: int)
    requires
        arena_of(bytes).wf(),
        0 <= i < ARENA_SLOTS,
        found_in(bytes)[i].live(key),
        unmet(
            places(found_in(bytes)),
            hasher(),
            key,
            steps_to(home_of(low_half(key), ARENA_SLOTS as int), i, ARENA_SLOTS as int),
        ),
    ensures
        arena_of(bytes).filed_at(i, key),
        arena_of(bytes).slots[i] == found_in(bytes)[i],
        arena_of(bytes).record(key) == Some(arena_of(bytes).record_at(i)),
{
    assert(places(found_in(bytes))[i] == found_in(bytes)[i].place());
    crate::arena::laws::lemma_filed_at(arena_of(bytes), i, key);
}

/// The header that a segment has.
pub open spec fn arena_header_in(bytes: Seq<u8>) -> ArenaHeader {
    ArenaHeader {
        magic: u32_at(bytes, 0),
        version: u16_at(bytes, 4),
        header_size: u16_at(bytes, 6),
        slots: u32_at(bytes, 8),
        slot_size: u32_at(bytes, 12),
        bytes: u64_at(bytes, 16),
    }
}

/// What a process finds in a segment that an arena was written to.
pub proof fn law_arena_survives_the_segment(view: ArenaView)
    requires
        view.wf(),
    ensures
        image(view).len() == SEGMENT_SIZE,
        arena_header_in(image(view)) == ArenaHeader::current(),
        arena_of(image(view)) == view,
{
    let images = slot_images(view.slots);
    let rest = arena_rest(view);
    let whole = image(view);
    let tail = flat(images) + view.ring;
    assert(rest.len() == 48);
    assert forall|k: int| 0 <= k < images.len() implies (#[trigger] images[k]).len() == 128 by {
        assert(view.slots[k].wf());
        lemma_slot_round_trip(view.slots[k]);
    }
    lemma_header(arena_fields(), rest, tail);
    lemma_flat(images, 128, 0);
    assert(whole =~= header_bytes(arena_fields(), rest) + tail);
    assert(whole.subrange(16, 24) =~= le64(ARENA_BYTES as u64));
    assert(whole.subrange(24, 32) =~= le64(view.cursor));
    assert(whole.subrange(32, 36) =~= le32(view.generation));
    lemma_read_u64(whole, 16, ARENA_BYTES as u64);
    lemma_read_u64(whole, 24, view.cursor);
    lemma_read_u32(whole, 32, view.generation);
    assert forall|i: int| 0 <= i < ARENA_SLOTS implies slot_in(#[trigger] slot_section(whole, i))
        == view.slots[i] by {
        lemma_flat(images, 128, i);
        assert(view.slots[i].wf());
        lemma_slot_round_trip(view.slots[i]);
        assert(slot_section(whole, i) =~= flat(images).subrange(i * 128, i * 128 + 128));
    }
    assert(found_in(whole) =~= view.slots);
    assert forall|i: int| 0 <= i < ARENA_SLOTS implies #[trigger] reachable(
        places(view.slots),
        hasher(),
        i,
    ) by {
        lemma_probing_reachable(view.slots, i);
    }
    assert(arena_of(whole).slots =~= view.slots);
    assert(arena_of(whole).ring =~= view.ring);
}

/// True when the way to the key at a place meets neither an unused place nor the
/// key.
fn is_reachable(slots: &Vec<Slot>, place: usize) -> (result: bool)
    requires
        slots@.len() == ARENA_SLOTS,
        place < ARENA_SLOTS,
    ensures
        result == reachable(places(slots@), hasher(), place as int),
{
    let ghost all = places(slots@);
    let slot: Slot = slots[place];
    assert(all[place as int] == slot.place());
    if slot.state != SlotState::Live {
        return true;
    }
    let key: u128 = slot.key;
    let hash: u64 = (key % 0x1_0000_0000_0000_0000) as u64;
    let ghost home = home_of(hash, ARENA_SLOTS as int);
    let ghost end = steps_to(home, place as int, ARENA_SLOTS as int);
    proof {
        lemma_steps(home, place as int, ARENA_SLOTS as int);
        assert(hash == hasher()(key));
    }
    let mut steps: usize = 0;
    while steps < ARENA_SLOTS
        invariant
            steps <= end,
            end < ARENA_SLOTS,
            end == steps_to(home, place as int, ARENA_SLOTS as int),
            home == home_of(hash, ARENA_SLOTS as int),
            hash == hasher()(key),
            slots@.len() == ARENA_SLOTS,
            all == places(slots@),
            all[place as int] == Place::Held(key),
            probed(home, end, ARENA_SLOTS as int) == place,
            forall|e: int|
                0 <= e < ARENA_SLOTS && #[trigger] probed(home, e, ARENA_SLOTS as int) == place
                    ==> e == end,
            unmet(all, hasher(), key, steps as int),
        decreases ARENA_SLOTS - steps,
    {
        let index: usize = probe_index(hash, steps, ARENA_SLOTS);
        assert(index == probed(home, steps as int, ARENA_SLOTS as int));
        if index == place {
            return true;
        }
        assert(steps < end);
        let other: Slot = slots[index];
        assert(all[index as int] == other.place());
        if other.state == SlotState::Empty || (other.state == SlotState::Live && other.key == key) {
            assert(!unmet(all, hasher(), key, end)) by {
                let reached = all[probed(
                    home_of(hasher()(key), all.len() as int),
                    steps as int,
                    all.len() as int,
                )];
                assert(reached == all[index as int]);
            }
            return false;
        }
        steps = steps + 1;
    }
    true
}

/// In an index in which searches work, every key is reachable.
proof fn lemma_probing_reachable(slots: Seq<Slot>, place: int)
    requires
        probing(places(slots), hasher()),
        0 <= place < slots.len(),
    ensures
        reachable(places(slots), hasher(), place),
{
    let all = places(slots);
    let capacity = all.len() as int;
    if all[place] is Held {
        let key = all[place]->Held_0;
        let home = home_of(hasher()(key), capacity);
        let end = steps_to(home, place, capacity);
        lemma_steps(home, place, capacity);
        assert forall|e: int| 0 <= e < end implies {
            let reached = #[trigger] all[probed(home, e, capacity)];
            reached != Place::Held(key) && !(reached is Empty)
        } by {
            lemma_probed_inside(home, e, capacity);
            let j = probed(home, e, capacity);
            if all[j] == Place::Held(key) {
                assert(j != place);
                assert(all[j]->Held_0 != all[place]->Held_0);
            }
        }
    }
}

impl Arena {
    /// The segment of the arena.
    pub fn segment(&self) -> (bytes: Vec<u8>)
        requires
            self@.wf(),
        ensures
            bytes@ == image(self@),
    {
        let (slots, ring, cursor, generation) = self.parts();
        let ghost images = slot_images(self@.slots);
        let mut bytes: Vec<u8> = Vec::new();
        let fields = StateHeader {
            magic: ARENA_MAGIC,
            version: ARENA_VERSION,
            header_size: ARENA_HEADER_SIZE,
            capacity: ARENA_SLOTS as u32,
            slot_size: ARENA_SLOT_SIZE,
        };
        fields.push(&mut bytes);
        push_u64(&mut bytes, ARENA_BYTES as u64);
        push_u64(&mut bytes, cursor);
        push_u32(&mut bytes, generation);
        push_zeroes(&mut bytes, 28);
        let ghost head = header_bytes(arena_fields(), arena_rest(self@));
        assert(bytes@ =~= head);
        let mut index: usize = 0;
        assert(images.subrange(0, 0) =~= Seq::<Seq<u8>>::empty());
        assert(bytes@ =~= head + flat(images.subrange(0, 0)));
        while index < slots.len()
            invariant
                index <= slots@.len(),
                self@.wf(),
                slots@ == self@.slots,
                images == slot_images(self@.slots),
                bytes@ == head + flat(images.subrange(0, index as int)),
            decreases slots@.len() - index,
        {
            let ghost longer = images.subrange(0, index + 1);
            assert(longer.drop_last() =~= images.subrange(0, index as int));
            assert(self@.slots[index as int].wf());
            assert(longer.last() == slot_bytes(slots@[index as int]));
            push_slot(&mut bytes, &slots[index]);
            assert(bytes@ =~= head + flat(longer));
            index = index + 1;
        }
        assert(images.subrange(0, images.len() as int) =~= images);
        bytes.extend_from_slice(ring.as_slice());
        assert(bytes@ =~= image(self@));
        bytes
    }

    /// Opens an arena over a segment that exists.
    pub fn open_segment(bytes: &[u8]) -> (arena: Result<Arena, ArenaFault>)
        ensures
            match arena {
                Ok(arena) => {
                    &&& arena@.wf()
                    &&& bytes@.len() >= SEGMENT_SIZE
                    &&& arena_header_in(bytes@) == ArenaHeader::current()
                    &&& arena@ == arena_of(bytes@)
                },
                Err(ArenaFault::TooSmall { actual, requested }) => {
                    &&& actual == bytes@.len()
                    &&& requested == SEGMENT_SIZE
                    &&& bytes@.len() < SEGMENT_SIZE
                },
                Err(ArenaFault::Incompatible) => {
                    &&& bytes@.len() >= SEGMENT_SIZE
                    &&& arena_header_in(bytes@) != ArenaHeader::current()
                },
            },
    {
        if bytes.len() < SEGMENT_SIZE {
            return Err(ArenaFault::TooSmall { actual: bytes.len(), requested: SEGMENT_SIZE });
        }
        let header = ArenaHeader {
            magic: read_u32(bytes, 0),
            version: read_u16(bytes, 4),
            header_size: read_u16(bytes, 6),
            slots: read_u32(bytes, 8),
            slot_size: read_u32(bytes, 12),
            bytes: read_u64(bytes, 16),
        };
        if !header.compatible() {
            return Err(ArenaFault::Incompatible);
        }
        let mut slots: Vec<Slot> = Vec::new();
        let mut index: usize = 0;
        while index < ARENA_SLOTS
            invariant
                index <= ARENA_SLOTS,
                bytes@.len() >= SEGMENT_SIZE,
                slots@.len() == index,
                forall|i: int|
                    0 <= i < index ==> slot_in(#[trigger] slot_section(bytes@, i)) == slots@[i],
                forall|i: int| 0 <= i < index ==> (#[trigger] slots@[i]).wf(),
            decreases ARENA_SLOTS - index,
        {
            let from: usize = 64 + index * 128;
            slots.push(read_slot(slice_subrange(bytes, from, from + 128)));
            index = index + 1;
        }
        let ghost found = slots@;
        assert(found =~= found_in(bytes@));
        let mut met: Vec<bool> = Vec::new();
        while met.len() < ARENA_SLOTS
            invariant
                met@.len() <= ARENA_SLOTS,
                slots@.len() == ARENA_SLOTS,
                forall|i: int|
                    0 <= i < met@.len() ==> #[trigger] met@[i] == reachable(
                        places(slots@),
                        hasher(),
                        i,
                    ),
            decreases ARENA_SLOTS - met@.len(),
        {
            met.push(is_reachable(&slots, met.len()));
        }
        let mut place: usize = 0;
        while place < ARENA_SLOTS
            invariant
                place <= ARENA_SLOTS,
                slots@.len() == ARENA_SLOTS,
                met@.len() == ARENA_SLOTS,
                found == found_in(bytes@),
                forall|i: int|
                    0 <= i < met@.len() ==> #[trigger] met@[i] == reachable(
                        places(found),
                        hasher(),
                        i,
                    ),
                forall|i: int|
                    0 <= i < slots@.len() ==> #[trigger] slots@[i] == if i < place {
                        arena_of(bytes@).slots[i]
                    } else {
                        found[i]
                    },
            decreases ARENA_SLOTS - place,
        {
            if !met[place] {
                let slot: Slot = slots[place];
                slots.set(place, slot.evict());
            }
            place = place + 1;
        }
        proof {
            lemma_searches_work(bytes@);
            assert(slots@ =~= arena_of(bytes@).slots);
        }
        let ring: Vec<u8> = to_vec(slice_subrange(bytes, RING_OFFSET, SEGMENT_SIZE));
        Ok(Arena::from_parts(slots, ring, read_u64(bytes, 24), read_u32(bytes, 32)))
    }
}

/// Where the fields of a record stand in its slot.
pub proof fn law_arena_slot_layout(slot: Slot)
    requires
        slot.wf(),
        slot.state == SlotState::Live,
    ensures
        ({
            let bytes = slot_bytes(slot);
            &&& bytes.len() == 128
            &&& bytes[0] == 1
            &&& slot.encoding matches Some(tag) ==> bytes[1] == tag
            &&& u32_at(bytes, 4) == slot.pins
            &&& u32_at(bytes, 8) == slot.generation
            &&& u64_at(bytes, 16) == slot.key % 0x1_0000_0000_0000_0000
            &&& u64_at(bytes, 24) == slot.key / 0x1_0000_0000_0000_0000
            &&& u64_at(bytes, 32) == slot.body_offset
            &&& u64_at(bytes, 40) == slot.body_len
            &&& slot.encoded_len > 0 ==> u64_at(bytes, 48) == slot.body_offset + slot.body_len
            &&& u64_at(bytes, 56) == slot.encoded_len
            &&& u64_at(bytes, 64) == slot.stamp
            &&& u64_at(bytes, 72) == slot.extra
        }),
{
    let bytes = slot_bytes(slot);
    assert(bytes.len() == 128);
    assert(bytes[0] == state_byte(slot.state));
    assert(bytes[1] == tag_byte(slot.encoding));
    assert(bytes.subrange(4, 8) =~= le32(slot.pins));
    assert(bytes.subrange(8, 12) =~= le32(slot.generation));
    assert(bytes.subrange(16, 24) =~= le64(low_half(slot.key)));
    assert(bytes.subrange(24, 32) =~= le64(high_half(slot.key)));
    assert(bytes.subrange(32, 40) =~= le64(slot.body_offset));
    assert(bytes.subrange(40, 48) =~= le64(slot.body_len));
    assert(bytes.subrange(48, 56) =~= le64(encoded_offset(slot)));
    assert(bytes.subrange(56, 64) =~= le64(slot.encoded_len));
    assert(bytes.subrange(64, 72) =~= le64(slot.stamp));
    assert(bytes.subrange(72, 80) =~= le64(slot.extra));
    lemma_read_u32(bytes, 4, slot.pins);
    lemma_read_u32(bytes, 8, slot.generation);
    lemma_read_u64(bytes, 16, low_half(slot.key));
    lemma_read_u64(bytes, 24, high_half(slot.key));
    lemma_read_u64(bytes, 32, slot.body_offset);
    lemma_read_u64(bytes, 40, slot.body_len);
    lemma_read_u64(bytes, 48, encoded_offset(slot));
    lemma_read_u64(bytes, 56, slot.encoded_len);
    lemma_read_u64(bytes, 64, slot.stamp);
    lemma_read_u64(bytes, 72, slot.extra);
}

} // verus!
