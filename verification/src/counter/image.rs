//! The counter table as it stands in shared memory.
use vstd::prelude::*;
use vstd::slice::slice_subrange;

use crate::cell::{signed_bits, signed_of, CellType};
use crate::codec::{
    le16, le64, lemma_read_u16, lemma_read_u64, push_u16, push_u64, read_u16, read_u64, same_bytes,
    to_vec, u16_at, u64_at,
};
use crate::counter::{
    counter_header, fits, hasher, held_at, lemma_values, places, usable, values, Counter,
    CounterSlot, SlotView, COUNTER_CAPACITY, COUNTER_KEY_MAX,
};
use crate::fnv::{fnv, hash_of};
use crate::probe::{
    home_of, lemma_probed_inside, lemma_reachable, lemma_steps, probe_index, probed, probing,
    reachable, steps_to, unmet, Place,
};
use crate::table::{
    flat, header_bytes, lemma_slot_inside, push_zeroes, zeros, SegmentFault, StateHeader,
};

verus! {

broadcast use crate::codec::group_widths;

/// The header of the table.
pub open spec fn counters_header() -> StateHeader {
    StateHeader {
        magic: 0x4343_4E54,
        version: 1,
        header_size: 64,
        capacity: COUNTER_CAPACITY as u32,
        slot_size: 320,
    }
}

/// The bytes of a slot.
pub open spec fn slot_bytes(slot: SlotView) -> Seq<u8> {
    match slot {
        SlotView::Empty => zeros(320),
        SlotView::Occupied(key, value) => seq![1u8] + zeros(7) + le64(fnv(key)) + le64(
            signed_bits(value),
        ) + le16(key.len() as u16) + zeros(6) + key + zeros((288 - key.len()) as nat),
        SlotView::Foreign(bytes) => bytes,
    }
}

/// The slot of some bytes.
pub open spec fn slot_of(bytes: Seq<u8>) -> SlotView {
    let len = u16_at(bytes, 24) as int;
    let key = bytes.subrange(32, 32 + len);
    if bytes[0] == 0 {
        SlotView::Empty
    } else if bytes[0] == 1 && len <= COUNTER_KEY_MAX && u64_at(bytes, 8) == fnv(key) {
        SlotView::Occupied(key, signed_of(u64_at(bytes, 16)))
    } else {
        SlotView::Foreign(bytes)
    }
}

/// A slot that was written is read back.
pub proof fn lemma_slot_round_trip(slot: SlotView)
    requires
        fits(slot),
    ensures
        slot_bytes(slot).len() == 320,
        !(slot is Foreign) ==> slot_of(slot_bytes(slot)) == slot,
{
    let bytes = slot_bytes(slot);
    match slot {
        SlotView::Empty => {
            assert(bytes[0] == 0);
        },
        SlotView::Occupied(key, value) => {
            assert(bytes[0] == 1);
            assert(bytes.subrange(8, 16) =~= le64(fnv(key)));
            assert(bytes.subrange(16, 24) =~= le64(signed_bits(value)));
            assert(bytes.subrange(24, 26) =~= le16(key.len() as u16));
            lemma_read_u64(bytes, 8, fnv(key));
            lemma_read_u64(bytes, 16, signed_bits(value));
            lemma_read_u16(bytes, 24, key.len() as u16);
            assert(bytes.subrange(32, 32 + key.len() as int) =~= key);
        },
        SlotView::Foreign(other) => {},
    }
}

/// The segment of a table.
pub open spec fn image(slots: Seq<SlotView>) -> Seq<u8> {
    header_bytes(counters_header(), zeros(48)) + flat(
        slots.map_values(|slot: SlotView| slot_bytes(slot)),
    )
}

/// What the slots of a segment hold, each by itself.
pub open spec fn found_in(bytes: Seq<u8>) -> Seq<SlotView> {
    Seq::new(COUNTER_CAPACITY as nat, |i: int| slot_of(counters_header().slot_in(bytes, i)))
}

/// What the table in a segment holds. A key at which a search for it does not end, as
/// an empty place or the same key comes before, is nobody's.
pub open spec fn slots_of(bytes: Seq<u8>) -> Seq<SlotView> {
    Seq::new(
        COUNTER_CAPACITY as nat,
        |i: int|
            if reachable(places(found_in(bytes)), hasher(), i) {
                found_in(bytes)[i]
            } else {
                SlotView::Foreign(counters_header().slot_in(bytes, i))
            },
    )
}

/// Whatever the slots of a segment hold, searches work in the table.
pub proof fn lemma_searches_work(bytes: Seq<u8>)
    ensures
        slots_of(bytes).len() == COUNTER_CAPACITY,
        probing(places(slots_of(bytes)), hasher()),
{
    let raw = places(found_in(bytes));
    let all = places(slots_of(bytes));
    let capacity = COUNTER_CAPACITY as int;
    assert forall|i: int| 0 <= i < all.len() implies #[trigger] reachable(all, hasher(), i) by {
        assert(all[i] == slots_of(bytes)[i].place());
        assert(raw[i] == found_in(bytes)[i].place());
        if all[i] is Held {
            let key = all[i]->Held_0;
            let home = home_of(hasher()(key), capacity);
            let end = steps_to(home, i, capacity);
            assert forall|e: int| 0 <= e < end implies {
                let reached = #[trigger] all[probed(home, e, capacity)];
                reached != Place::Held(key) && !(reached is Empty)
            } by {
                lemma_probed_inside(home, e, capacity);
                let j = probed(home, e, capacity);
                assert(all[j] == slots_of(bytes)[j].place());
                assert(raw[j] == found_in(bytes)[j].place());
                assert(raw[probed(home, e, capacity)] != Place::Held(key));
            }
        }
    }
    lemma_reachable(all, hasher());
}

/// A key in a slot of a segment has the value that is there where a search for it,
/// along the slots as they are, ends at the slot; where none does, the slot is nobody's.
pub proof fn law_values_are_what_a_search_finds(bytes: Seq<u8>, key: Seq<u8>, i: int)
    requires
        0 <= i < COUNTER_CAPACITY,
        found_in(bytes)[i] is Occupied,
        found_in(bytes)[i]->Occupied_0 == key,
    ensures
        ({
            let capacity = COUNTER_CAPACITY as int;
            let steps = steps_to(home_of(fnv(key), capacity), i, capacity);
            let ends_here = unmet(places(found_in(bytes)), hasher(), key, steps);
            &&& ends_here ==> values(slots_of(bytes)).contains_key(key)
            &&& ends_here ==> values(slots_of(bytes))[key] == found_in(bytes)[i]->Occupied_1
            &&& !ends_here ==> slots_of(bytes)[i] is Foreign
        }),
{
    let slots = slots_of(bytes);
    let all = places(slots);
    assert(places(found_in(bytes))[i] == found_in(bytes)[i].place());
    lemma_searches_work(bytes);
    assert forall|a: int, b: int|
        0 <= a < slots.len() && 0 <= b < slots.len() && a != b && slots[a] is Occupied
            && slots[b] is Occupied implies (#[trigger] slots[a])->Occupied_0 != (
    #[trigger] slots[b])->Occupied_0 by {
        assert(all[a] == slots[a].place());
        assert(all[b] == slots[b].place());
    }
    lemma_values(slots, key);
    if slots[i] is Occupied {
        assert(held_at(slots, i, key));
    }
}

/// What a process finds in a segment that a table was written to.
pub proof fn law_counters_survive_the_segment(slots: Seq<SlotView>)
    requires
        slots.len() == COUNTER_CAPACITY,
        probing(places(slots), hasher()),
        forall|i: int|
            0 <= i < slots.len() ==> fits(#[trigger] slots[i]) && !(slots[i] is Foreign),
    ensures
        counters_header().segment_fault(image(slots)) is None,
        slots_of(image(slots)) == slots,
{
    let images = slots.map_values(|slot: SlotView| slot_bytes(slot));
    let whole = image(slots);
    assert forall|k: int| 0 <= k < images.len() implies (#[trigger] images[k]).len() == 320 by {
        assert(fits(slots[k]));
        lemma_slot_round_trip(slots[k]);
    }
    counters_header().lemma_image(zeros(48), images, 0);
    assert forall|i: int| 0 <= i < COUNTER_CAPACITY implies slot_of(
        #[trigger] counters_header().slot_in(whole, i),
    ) == slots[i] by {
        counters_header().lemma_image(zeros(48), images, i);
        assert(fits(slots[i]));
        lemma_slot_round_trip(slots[i]);
    }
    assert(found_in(whole) =~= slots);
    assert forall|i: int| 0 <= i < COUNTER_CAPACITY implies #[trigger] reachable(
        places(slots),
        hasher(),
        i,
    ) by {
        lemma_probing_reachable(slots, i);
    }
    assert(slots_of(whole) =~= slots);
}

/// Slots that are nobody's stay as they are when a table that was opened is written
/// back.
pub proof fn law_foreign_slots_survive_the_segment(bytes: Seq<u8>)
    requires
        counters_header().segment_fault(bytes) is None,
    ensures
        counters_header().segment_fault(image(slots_of(bytes))) is None,
        slots_of(image(slots_of(bytes))) == slots_of(bytes),
{
    let slots = slots_of(bytes);
    let images = slots.map_values(|slot: SlotView| slot_bytes(slot));
    let whole = image(slots);
    assert forall|k: int| 0 <= k < COUNTER_CAPACITY implies fits(#[trigger] slots[k]) by {
        lemma_slot_inside(counters_header(), k);
    }
    assert forall|k: int| 0 <= k < images.len() implies (#[trigger] images[k]).len() == 320 by {
        assert(fits(slots[k]));
        lemma_slot_round_trip(slots[k]);
    }
    counters_header().lemma_image(zeros(48), images, 0);
    assert forall|i: int| 0 <= i < COUNTER_CAPACITY implies {
        &&& found_in(whole)[i] == found_in(bytes)[i]
        &&& #[trigger] counters_header().slot_in(whole, i) == slot_bytes(slots[i])
    } by {
        counters_header().lemma_image(zeros(48), images, i);
        assert(fits(slots[i]));
        lemma_slot_round_trip(slots[i]);
    }
    assert forall|i: int| 0 <= i < COUNTER_CAPACITY implies #[trigger] found_in(whole)[i]
        == found_in(bytes)[i] by {
        assert(counters_header().slot_in(whole, i) == slot_bytes(slots[i]));
    }
    assert(found_in(whole) =~= found_in(bytes));
    assert forall|i: int| 0 <= i < COUNTER_CAPACITY implies #[trigger] slots_of(whole)[i]
        == slots[i] by {
        assert(counters_header().slot_in(whole, i) == slot_bytes(slots[i]));
    }
    assert(slots_of(whole) =~= slots);
}

fn push_slot(bytes: &mut Vec<u8>, slot: &CounterSlot)
    requires
        fits(slot@),
        *slot is Occupied ==> slot->key_hash == fnv(slot->key@),
    ensures
        final(bytes)@ == old(bytes)@ + slot_bytes(slot@),
{
    match slot {
        CounterSlot::Empty => {
            push_zeroes(bytes, 320);
        },
        CounterSlot::Occupied { key_hash, key, value } => {
            bytes.push(1);
            push_zeroes(bytes, 7);
            push_u64(bytes, *key_hash);
            push_u64(bytes, <i64 as CellType>::to_bits(*value));
            push_u16(bytes, key.len() as u16);
            push_zeroes(bytes, 6);
            bytes.extend_from_slice(key.as_slice());
            push_zeroes(bytes, 288 - key.len());
            assert(bytes@ =~= old(bytes)@ + slot_bytes(slot@));
        },
        CounterSlot::Foreign { bytes: other } => {
            bytes.extend_from_slice(other.as_slice());
            assert(bytes@ =~= old(bytes)@ + slot_bytes(slot@));
        },
    }
}

fn read_slot(bytes: &[u8]) -> (slot: CounterSlot)
    requires
        bytes@.len() == 320,
    ensures
        slot_of(bytes@) == slot@,
        fits(slot@),
        slot is Occupied ==> slot->key_hash == fnv(slot->key@),
{
    if bytes[0] == 0 {
        return CounterSlot::Empty;
    }
    let len: usize = read_u16(bytes, 24) as usize;
    if bytes[0] != 1 || len > COUNTER_KEY_MAX {
        return CounterSlot::Foreign { bytes: to_vec(bytes) };
    }
    let key: &[u8] = slice_subrange(bytes, 32, 32 + len);
    let key_hash: u64 = read_u64(bytes, 8);
    if key_hash != hash_of(key) {
        return CounterSlot::Foreign { bytes: to_vec(bytes) };
    }
    CounterSlot::Occupied {
        key_hash,
        key: to_vec(key),
        value: <i64 as CellType>::from_bits(read_u64(bytes, 16)),
    }
}

/// True when the way to the key at a place meets neither an empty place nor the
/// key.
fn is_reachable(slots: &Vec<CounterSlot>, place: usize) -> (result: bool)
    requires
        slots@.len() == COUNTER_CAPACITY,
        place < COUNTER_CAPACITY,
        forall|i: int|
            0 <= i < slots@.len() && (#[trigger] slots@[i]) is Occupied ==> slots@[i]->key_hash
                == fnv(slots@[i]->key@),
    ensures
        result == reachable(
            places(slots@.map_values(|slot: CounterSlot| slot@)),
            hasher(),
            place as int,
        ),
{
    let ghost views = slots@.map_values(|slot: CounterSlot| slot@);
    let ghost all = places(views);
    assert(all[place as int] == slots@[place as int]@.place());
    match &slots[place] {
        CounterSlot::Empty => true,
        CounterSlot::Foreign { .. } => true,
        CounterSlot::Occupied { key_hash, key, .. } => {
            let ghost home = home_of(fnv(key@), COUNTER_CAPACITY as int);
            let ghost end = steps_to(home, place as int, COUNTER_CAPACITY as int);
            proof {
                lemma_steps(home, place as int, COUNTER_CAPACITY as int);
                assert(*key_hash == hasher()(key@));
            }
            let mut steps: usize = 0;
            while steps < COUNTER_CAPACITY
                invariant
                    steps <= end,
                    end < COUNTER_CAPACITY,
                    end == steps_to(home, place as int, COUNTER_CAPACITY as int),
                    home == home_of(fnv(key@), COUNTER_CAPACITY as int),
                    *key_hash == fnv(key@),
                    slots@.len() == COUNTER_CAPACITY,
                    views == slots@.map_values(|slot: CounterSlot| slot@),
                    all == places(views),
                    all[place as int] == Place::Held(key@),
                    probed(home, end, COUNTER_CAPACITY as int) == place,
                    forall|e: int|
                        0 <= e < COUNTER_CAPACITY && #[trigger] probed(
                            home,
                            e,
                            COUNTER_CAPACITY as int,
                        ) == place ==> e == end,
                    unmet(all, hasher(), key@, steps as int),
                decreases COUNTER_CAPACITY - steps,
            {
                let index: usize = probe_index(*key_hash, steps, COUNTER_CAPACITY);
                assert(index == probed(home, steps as int, COUNTER_CAPACITY as int));
                if index == place {
                    return true;
                }
                assert(steps < end);
                assert(all[index as int] == slots@[index as int]@.place());
                let meets: bool = match &slots[index] {
                    CounterSlot::Empty => true,
                    CounterSlot::Foreign { .. } => false,
                    CounterSlot::Occupied { key: other, .. } => same_bytes(
                        other.as_slice(),
                        key.as_slice(),
                    ),
                };
                if meets {
                    assert(!unmet(all, hasher(), key@, end)) by {
                        let reached = all[probed(
                            home_of(hasher()(key@), all.len() as int),
                            steps as int,
                            all.len() as int,
                        )];
                        assert(reached == all[index as int]);
                    }
                    return false;
                }
                steps = steps + 1;
            }
            true
        },
    }
}

impl Counter {
    /// The segment of the table.
    pub fn segment(&self) -> (bytes: Vec<u8>)
        requires
            self.wf(),
        ensures
            bytes@ == image(self.places_view()),
    {
        proof {
            self.lemma_places();
        }
        let slots: &Vec<CounterSlot> = self.slots();
        let ghost images = self.places_view().map_values(|slot: SlotView| slot_bytes(slot));
        let mut bytes: Vec<u8> = Vec::new();
        counter_header().push(&mut bytes);
        push_zeroes(&mut bytes, 48);
        let ghost head = header_bytes(counters_header(), zeros(48));
        assert(bytes@ =~= head);
        let mut index: usize = 0;
        assert(images.subrange(0, 0) =~= Seq::<Seq<u8>>::empty());
        assert(bytes@ =~= head + flat(images.subrange(0, 0)));
        while index < slots.len()
            invariant
                index <= slots@.len(),
                forall|i: int|
                    0 <= i < COUNTER_CAPACITY ==> fits(#[trigger] self.places_view()[i]),
                slots@.len() == COUNTER_CAPACITY,
                slots@.len() == self.places_view().len(),
                forall|i: int|
                    0 <= i < slots@.len() ==> (#[trigger] slots@[i])@ == self.places_view()[i],
                forall|i: int|
                    0 <= i < slots@.len() && (#[trigger] slots@[i]) is Occupied
                        ==> slots@[i]->key_hash == fnv(slots@[i]->key@),
                images == self.places_view().map_values(|slot: SlotView| slot_bytes(slot)),
                bytes@ == head + flat(images.subrange(0, index as int)),
            decreases slots@.len() - index,
        {
            let ghost longer = images.subrange(0, index + 1);
            assert(longer.drop_last() =~= images.subrange(0, index as int));
            assert(fits(self.places_view()[index as int]));
            assert(longer.last() == slot_bytes(slots@[index as int]@));
            push_slot(&mut bytes, &slots[index]);
            assert(bytes@ =~= head + flat(longer));
            index = index + 1;
        }
        assert(images.subrange(0, images.len() as int) =~= images);
        bytes
    }

    /// Opens a table over a segment that exists.
    pub fn open_segment(bytes: &[u8]) -> (counter: Result<Counter, SegmentFault>)
        ensures
            match counter {
                Ok(counter) => {
                    &&& counter.wf()
                    &&& counters_header().segment_fault(bytes@) is None
                    &&& counter.places_view() == slots_of(bytes@)
                    &&& counter@ == values(slots_of(bytes@))
                    &&& counter.room() == usable(slots_of(bytes@))
                },
                Err(fault) => counters_header().segment_fault(bytes@) == Some(fault),
            },
    {
        let header = counter_header();
        match header.check_segment(bytes) {
            Ok(_) => {},
            Err(fault) => {
                return Err(fault);
            },
        }
        let mut slots: Vec<CounterSlot> = Vec::new();
        let mut index: usize = 0;
        while index < COUNTER_CAPACITY
            invariant
                index <= COUNTER_CAPACITY,
                counters_header().segment_fault(bytes@) is None,
                slots@.len() == index,
                forall|i: int|
                    0 <= i < index ==> slot_of(#[trigger] counters_header().slot_in(bytes@, i))
                        == slots@[i]@,
                forall|i: int|
                    0 <= i < index ==> {
                        let slot = #[trigger] slots@[i];
                        &&& fits(slot@)
                        &&& slot is Occupied ==> slot->key_hash == fnv(slot->key@)
                    },
            decreases COUNTER_CAPACITY - index,
        {
            proof {
                lemma_slot_inside(counters_header(), index as int);
            }
            let from: usize = 64 + index * 320;
            slots.push(read_slot(slice_subrange(bytes, from, from + 320)));
            index = index + 1;
        }
        let ghost views = slots@.map_values(|slot: CounterSlot| slot@);
        assert(views =~= found_in(bytes@));
        let mut met: Vec<bool> = Vec::new();
        while met.len() < COUNTER_CAPACITY
            invariant
                met@.len() <= COUNTER_CAPACITY,
                slots@.len() == COUNTER_CAPACITY,
                views == slots@.map_values(|slot: CounterSlot| slot@),
                forall|i: int|
                    0 <= i < slots@.len() && (#[trigger] slots@[i]) is Occupied
                        ==> slots@[i]->key_hash == fnv(slots@[i]->key@),
                forall|i: int|
                    0 <= i < met@.len() ==> #[trigger] met@[i] == reachable(
                        places(views),
                        hasher(),
                        i,
                    ),
            decreases COUNTER_CAPACITY - met@.len(),
        {
            met.push(is_reachable(&slots, met.len()));
        }
        let mut place: usize = 0;
        while place < COUNTER_CAPACITY
            invariant
                place <= COUNTER_CAPACITY,
                slots@.len() == COUNTER_CAPACITY,
                met@.len() == COUNTER_CAPACITY,
                views == found_in(bytes@),
                counters_header().segment_fault(bytes@) is None,
                forall|i: int|
                    0 <= i < met@.len() ==> #[trigger] met@[i] == reachable(
                        places(views),
                        hasher(),
                        i,
                    ),
                forall|i: int|
                    0 <= i < slots@.len() ==> {
                        let slot = #[trigger] slots@[i];
                        &&& fits(slot@)
                        &&& slot is Occupied ==> slot->key_hash == fnv(slot->key@)
                    },
                forall|i: int|
                    0 <= i < slots@.len() ==> (#[trigger] slots@[i])@ == if i < place {
                        slots_of(bytes@)[i]
                    } else {
                        views[i]
                    },
            decreases COUNTER_CAPACITY - place,
        {
            if !met[place] {
                proof {
                    lemma_slot_inside(counters_header(), place as int);
                }
                let from: usize = 64 + place * 320;
                let other: Vec<u8> = to_vec(slice_subrange(bytes, from, from + 320));
                slots.set(place, CounterSlot::Foreign { bytes: other });
            }
            place = place + 1;
        }
        proof {
            lemma_searches_work(bytes@);
            assert(slots@.map_values(|slot: CounterSlot| slot@) =~= slots_of(bytes@));
        }
        let counter = Counter::from_slots(slots);
        proof {
            counter.lemma_values_of();
        }
        Ok(counter)
    }
}

/// In a table in which searches work, every key is reachable.
proof fn lemma_probing_reachable(views: Seq<SlotView>, place: int)
    requires
        probing(places(views), hasher()),
        0 <= place < views.len(),
    ensures
        reachable(places(views), hasher(), place),
{
    let all = places(views);
    let capacity = all.len() as int;
    if all[place] is Held {
        let key = all[place]->Held_0;
        let home = home_of(hasher()(key), capacity);
        let end = steps_to(home, place, capacity);
        lemma_steps(home, place, capacity);
        assert forall|e: int| 0 <= e < end implies {
            let reached = #[trigger] all[probed(home, e, capacity)];
            reached != Place::Held(key) && !(reached is Empty)
        } by {
            lemma_probed_inside(home, e, capacity);
            let j = probed(home, e, capacity);
            if all[j] == Place::Held(key) {
                assert(j != place);
                assert(all[j]->Held_0 != all[place]->Held_0);
            }
        }
    }
}

/// Where the fields of a counter stand in its slot.
pub proof fn law_counter_slot_layout(key: Seq<u8>, value: i64)
    requires
        key.len() <= COUNTER_KEY_MAX,
    ensures
        ({
            let bytes = slot_bytes(SlotView::Occupied(key, value));
            &&& bytes.len() == 320
            &&& bytes[0] == 1
            &&& u64_at(bytes, 8) == fnv(key)
            &&& u64_at(bytes, 16) == signed_bits(value)
            &&& u16_at(bytes, 24) == key.len()
            &&& bytes.subrange(32, 32 + key.len() as int) == key
        }),
{
    lemma_slot_round_trip(SlotView::Occupied(key, value));
    let bytes = slot_bytes(SlotView::Occupied(key, value));
    assert(bytes[0] == 1);
    assert(bytes.subrange(8, 16) =~= le64(fnv(key)));
    assert(bytes.subrange(16, 24) =~= le64(signed_bits(value)));
    assert(bytes.subrange(24, 26) =~= le16(key.len() as u16));
    lemma_read_u64(bytes, 8, fnv(key));
    lemma_read_u64(bytes, 16, signed_bits(value));
    lemma_read_u16(bytes, 24, key.len() as u16);
    assert(bytes.subrange(32, 32 + key.len() as int) =~= key);
}

} // verus!
