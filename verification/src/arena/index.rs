//! The arena's index: which record stands where in the ring of bytes.
use vstd::prelude::*;

use crate::probe::{
    holds, home_of, lemma_absent, lemma_probed_inside, lemma_put, lemma_steps, probe_index, probed,
    probing, steps_to, unmet, Place,
};

verus! {

/// Records that the arena can name at once.
pub const ARENA_SLOTS: usize = 4_096;

/// Bytes of the ring: sixty-four mebibytes.
pub const ARENA_BYTES: usize = 67_108_864;

/// The largest record: a quarter of the ring.
pub const ARENA_RECORD_MAX: usize = 16_777_216;

/// Attempts at a reservation before it is given up.
pub const ARENA_ATTEMPTS: usize = 4_098;

/// The last write position at which a record can be written.
pub const ARENA_CURSOR_MAX: u64 = 0x7FFF_FFFF_FFFF_FFFF;

/// No record moves the write position on by more than this.
pub const ARENA_STRIDE_MAX: u64 = 0x100_0000_0000;

/// What an index slot is used for.
#[derive(Clone, Copy, Debug, PartialEq, Eq, Structural)]
pub enum SlotState {
    /// Nothing was ever filed here.
    Empty,
    /// A record that lookups find.
    Live,
    /// Evicted or reset: no lookup finds the record. Its bytes are untouched
    /// until the last reader lets go of them.
    Retired,
}

/// One index slot.
#[derive(Clone, Copy, Debug, PartialEq, Eq, Structural)]
pub struct Slot {
    pub state: SlotState,
    pub key: u128,
    /// Readers that hold the record's bytes.
    pub pins: u32,
    /// Another one for every record; zero where nothing was ever filed.
    pub generation: u32,
    pub body_offset: u64,
    pub body_len: u64,
    pub encoded_len: u64,
    /// The tag of the encoded body, when one was stored.
    pub encoding: Option<u8>,
    pub stamp: u64,
    pub extra: u64,
}

impl Slot {
    /// A slot that was never used.
    pub open spec fn blank() -> Slot {
        Slot {
            state: SlotState::Empty,
            key: 0,
            pins: 0,
            generation: 0,
            body_offset: 0,
            body_len: 0,
            encoded_len: 0,
            encoding: None,
            stamp: 0,
            extra: 0,
        }
    }

    /// True when lookups of a key find this record.
    pub open spec fn live(self, key: u128) -> bool {
        self.state == SlotState::Live && self.key == key
    }

    /// True when the slot's bytes are spoken for: lookups find the record, or a
    /// reader holds it.
    pub open spec fn named(self) -> bool {
        self.state == SlotState::Live || self.pins > 0
    }

    /// True when the slot can take a record.
    pub open spec fn reusable(self) -> bool {
        !self.named()
    }

    /// Where the record ends: the encoded body stands right behind the body.
    pub open spec fn end(self) -> int {
        self.body_offset + self.body_len + self.encoded_len
    }

    /// True when the record holds bytes between `from` and `to`.
    pub open spec fn meets(self, from: int, to: int) -> bool {
        self.named() && !(self.end() <= from || self.body_offset >= to)
    }

    /// The slot taken out of the index.
    pub open spec fn evicted(self) -> Slot {
        Slot {
            state: if self.state == SlotState::Empty {
                SlotState::Empty
            } else {
                SlotState::Retired
            },
            ..self
        }
    }

    /// What the slot means to a search.
    pub open spec fn place(self) -> Place<u128> {
        match self.state {
            SlotState::Empty => Place::Empty,
            SlotState::Live => Place::Held(self.key),
            SlotState::Retired => Place::Gone,
        }
    }

    /// A record inside the ring; an unused slot says nothing but its generation.
    pub open spec fn wf(self) -> bool {
        &&& self.end() <= ARENA_BYTES
        &&& self.encoding is None ==> self.encoded_len == 0
        &&& self.state == SlotState::Empty ==> self == (Slot {
            generation: self.generation,
            ..Slot::blank()
        })
    }

    /// The slot taken out of the index.
    pub fn evict(self) -> (slot: Slot)
        ensures
            slot == self.evicted(),
    {
        let mut slot: Slot = self;
        if self.state != SlotState::Empty {
            slot.state = SlotState::Retired;
        }
        slot
    }
}

/// The lower half of a key, by which it is placed.
pub open spec fn low_half(key: u128) -> u64 {
    (key as int % 0x1_0000_0000_0000_0000) as u64
}

/// The hash of keys, as a function.
pub open spec fn hasher() -> spec_fn(u128) -> u64 {
    |key: u128| low_half(key)
}

/// What the slots mean to a search.
pub open spec fn places(slots: Seq<Slot>) -> Seq<Place<u128>> {
    slots.map_values(|slot: Slot| slot.place())
}

/// Searches work, and every slot is well formed.
pub open spec fn slots_wf(slots: Seq<Slot>) -> bool {
    &&& slots.len() == ARENA_SLOTS
    &&& probing(places(slots), hasher())
    &&& forall|i: int| 0 <= i < slots.len() ==> (#[trigger] slots[i]).wf()
}

/// True when two records share no byte.
pub open spec fn apart(one: Slot, other: Slot) -> bool {
    one.end() <= other.body_offset || other.end() <= one.body_offset
}

/// No two records share a byte.
pub open spec fn disjoint(slots: Seq<Slot>) -> bool {
    forall|i: int, j: int|
        0 <= i < slots.len() && 0 <= j < slots.len() && i != j && (#[trigger] slots[i]).named() && (
        #[trigger] slots[j]).named() ==> apart(slots[i], slots[j])
}

/// How many records are live.
pub open spec fn live_count(slots: Seq<Slot>) -> nat
    decreases slots.len(),
{
    if slots.len() == 0 {
        0
    } else if slots.last().state == SlotState::Live {
        live_count(slots.drop_last()) + 1
    } else {
        live_count(slots.drop_last())
    }
}

/// The slots after some live records were evicted.
pub open spec fn thinned(before: Seq<Slot>, after: Seq<Slot>) -> bool {
    &&& after.len() == before.len()
    &&& forall|i: int|
        0 <= i < before.len() ==> (#[trigger] after[i]) == before[i] || after[i]
            == before[i].evicted()
}

/// The slots without the record of a key.
pub open spec fn forgotten(slots: Seq<Slot>, key: u128) -> Seq<Slot> {
    slots.map_values(
        |slot: Slot|
            if slot.live(key) {
                slot.evicted()
            } else {
                slot
            },
    )
}

/// Evicting records keeps searches working and disjoint records disjoint.
pub proof fn lemma_thinned(before: Seq<Slot>, after: Seq<Slot>)
    requires
        slots_wf(before),
        thinned(before, after),
    ensures
        slots_wf(after),
        disjoint(before) ==> disjoint(after),
{
    let old_places = places(before);
    let new_places = places(after);
    let capacity = before.len() as int;
    assert forall|i: int| 0 <= i < capacity implies (#[trigger] new_places[i]) == old_places[i] || (
    new_places[i] is Gone && !(old_places[i] is Empty)) by {
        assert(after[i] == before[i] || after[i] == before[i].evicted());
    }
    assert forall|i: int, steps: int|
        #![trigger new_places[i], probed(home_of(hasher()(new_places[i]->Held_0), capacity), steps, capacity)]
        0 <= i < capacity && new_places[i] is Held && 0 <= steps < steps_to(
            home_of(hasher()(new_places[i]->Held_0), capacity),
            i,
            capacity,
        ) implies !(new_places[probed(
        home_of(hasher()(new_places[i]->Held_0), capacity),
        steps,
        capacity,
    )] is Empty) by {
        assert(new_places[i] == old_places[i]);
        let home = home_of(hasher()(new_places[i]->Held_0), capacity);
        lemma_probed_inside(home, steps, capacity);
        assert(!(old_places[probed(home, steps, capacity)] is Empty));
    }
    assert forall|i: int, j: int|
        0 <= i < capacity && 0 <= j < capacity && i != j && new_places[i] is Held
            && new_places[j] is Held implies (#[trigger] new_places[i])->Held_0 != (
    #[trigger] new_places[j])->Held_0 by {
        assert(new_places[i] == old_places[i]);
        assert(new_places[j] == old_places[j]);
    }
    assert forall|i: int| 0 <= i < capacity implies (#[trigger] after[i]).wf() by {
        assert(before[i].wf());
        assert(after[i] == before[i] || after[i] == before[i].evicted());
    }
    assert forall|i: int, j: int|
        disjoint(before) && 0 <= i < capacity && 0 <= j < capacity && i != j && (
        #[trigger] after[i]).named() && (#[trigger] after[j]).named() implies apart(
        after[i],
        after[j],
    ) by {
        assert(after[i] == before[i] || after[i] == before[i].evicted());
        assert(after[j] == before[j] || after[j] == before[j].evicted());
        assert(apart(before[i], before[j]));
    }
}

/// True when a slot has this generation.
pub open spec fn has_generation(slots: Seq<Slot>, generation: int) -> bool {
    exists|i: int| 0 <= i < slots.len() && #[trigger] slots[i].generation == generation
}

/// The generation of the next record: the one after the highest of the index or, when
/// the highest there is was given, the lowest that no slot has.
pub open spec fn fresh(slots: Seq<Slot>, generation: u32) -> bool {
    &&& 1 <= generation
    &&& !has_generation(slots, generation as int)
    &&& if has_generation(slots, u32::MAX as int) {
        forall|g: int| 1 <= g < generation ==> #[trigger] has_generation(slots, g)
    } else {
        &&& forall|i: int|
            0 <= i < slots.len() ==> (#[trigger] slots[i]).generation < generation
        &&& generation == 1 || has_generation(slots, generation - 1)
    }
}

/// Among one more generations than there are slots, no slot has some one.
proof fn lemma_some_generation_is_free(slots: Seq<Slot>)
    ensures
        exists|g: int| 1 <= g <= slots.len() + 1 && !(#[trigger] has_generation(slots, g)),
{
    if forall|g: int| 1 <= g <= slots.len() + 1 ==> #[trigger] has_generation(slots, g) {
        let all = slots.map_values(|slot: Slot| slot.generation as int);
        let numbers = vstd::set_lib::set_int_range(1, slots.len() as int + 2);
        vstd::set_lib::lemma_int_range(1, slots.len() as int + 2);
        all.lemma_cardinality_of_set();
        assert(numbers.subset_of(all.to_set())) by {
            assert forall|g: int| numbers.contains(g) implies all.to_set().contains(g) by {
                assert(has_generation(slots, g));
                let i = choose|i: int|
                    0 <= i < slots.len() && #[trigger] slots[i].generation == g;
                assert(all[i] == g);
            }
        }
        vstd::set_lib::lemma_len_subset(numbers, all.to_set());
    }
}

/// The generation of the next record.
pub fn next_generation(slots: &Vec<Slot>) -> (generation: u32)
    requires
        slots@.len() == ARENA_SLOTS,
    ensures
        fresh(slots@, generation),
{
    let mut highest: u32 = 0;
    let mut index: usize = 0;
    while index < slots.len()
        invariant
            index <= slots@.len(),
            forall|i: int| 0 <= i < index ==> (#[trigger] slots@[i]).generation <= highest,
            highest == 0 || has_generation(slots@, highest as int),
        decreases slots@.len() - index,
    {
        if slots[index].generation > highest {
            highest = slots[index].generation;
            assert(has_generation(slots@, highest as int));
        }
        index = index + 1;
    }
    if highest < u32::MAX {
        assert(!has_generation(slots@, highest + 1));
        assert(!has_generation(slots@, u32::MAX as int));
        return highest + 1;
    }
    proof {
        lemma_some_generation_is_free(slots@);
    }
    let ghost bound = choose|g: int|
        1 <= g <= slots@.len() + 1 && !(#[trigger] has_generation(slots@, g));
    let mut generation: u32 = 1;
    while is_given(slots, generation)
        invariant
            slots@.len() == ARENA_SLOTS,
            1 <= generation <= bound <= ARENA_SLOTS + 1,
            !has_generation(slots@, bound),
            forall|g: int| 1 <= g < generation ==> #[trigger] has_generation(slots@, g),
        decreases bound - generation,
    {
        generation = generation + 1;
    }
    generation
}

/// True when a slot has this generation.
fn is_given(slots: &Vec<Slot>, generation: u32) -> (given: bool)
    ensures
        given == has_generation(slots@, generation as int),
{
    let mut index: usize = 0;
    while index < slots.len()
        invariant
            index <= slots@.len(),
            forall|i: int| 0 <= i < index ==> (#[trigger] slots@[i]).generation != generation,
        decreases slots@.len() - index,
    {
        if slots[index].generation == generation {
            return true;
        }
        index = index + 1;
    }
    false
}

/// Finds the record of a key.
pub fn find(slots: &Vec<Slot>, key: u128) -> (place: Option<usize>)
    requires
        slots_wf(slots@),
    ensures
        match place {
            Some(place) => place < ARENA_SLOTS && slots@[place as int].live(key),
            None => forall|i: int| 0 <= i < slots@.len() ==> !(#[trigger] slots@[i]).live(key),
        },
{
    let ghost all = places(slots@);
    let hash: u64 = (key % 0x1_0000_0000_0000_0000) as u64;
    let mut steps: usize = 0;
    while steps < ARENA_SLOTS
        invariant
            steps <= ARENA_SLOTS,
            slots_wf(slots@),
            all == places(slots@),
            hash == hasher()(key),
            unmet(all, hasher(), key, steps as int),
        decreases ARENA_SLOTS - steps,
    {
        let index: usize = probe_index(hash, steps, ARENA_SLOTS);
        assert(all[index as int] == slots@[index as int].place());
        let slot: Slot = slots[index];
        if slot.state == SlotState::Empty {
            proof {
                lemma_none(slots@, key, steps as int);
            }
            return None;
        }
        if slot.state == SlotState::Live && slot.key == key {
            return Some(index);
        }
        steps = steps + 1;
    }
    proof {
        lemma_none(slots@, key, steps as int);
    }
    None
}

proof fn lemma_none(slots: Seq<Slot>, key: u128, steps: int)
    requires
        slots_wf(slots),
        0 <= steps <= slots.len(),
        unmet(places(slots), hasher(), key, steps),
        steps < slots.len() ==> places(slots)[probed(
            home_of(hasher()(key), slots.len() as int),
            steps,
            slots.len() as int,
        )] is Empty,
    ensures
        forall|i: int| 0 <= i < slots.len() ==> !(#[trigger] slots[i]).live(key),
{
    lemma_absent(places(slots), hasher(), key, steps);
    assert forall|i: int| 0 <= i < slots.len() implies !(#[trigger] slots[i]).live(key) by {
        assert(places(slots)[i] == slots[i].place());
    }
}

/// True when a record can be put at a place: the slot can take one or, where no
/// slot of the index can, no reader holds the slot's record.
pub open spec fn open_to(slots: Seq<Slot>, place: int) -> bool {
    slots[place].pins == 0 && (slots[place].reusable() || forall|i: int|
        0 <= i < slots.len() ==> !(#[trigger] slots[i]).reusable())
}

/// True when a place is the first one on a key's way at which a record can be put.
pub open spec fn first_open(slots: Seq<Slot>, key: u128, place: int) -> bool {
    let capacity = slots.len() as int;
    let home = home_of(low_half(key), capacity);
    &&& 0 <= place < capacity
    &&& open_to(slots, place)
    &&& forall|e: int|
        0 <= e < steps_to(home, place, capacity) ==> !open_to(
            slots,
            #[trigger] probed(home, e, capacity),
        )
}

/// Finds the first slot on the way of an absent key that can take a record.
fn find_reusable(slots: &Vec<Slot>, key: u128) -> (place: Option<usize>)
    requires
        slots_wf(slots@),
        forall|i: int| 0 <= i < slots@.len() ==> !(#[trigger] slots@[i]).live(key),
    ensures
        match place {
            Some(place) => {
                &&& slots@[place as int].reusable()
                &&& first_open(slots@, key, place as int)
                &&& probing(places(slots@).update(place as int, Place::Held(key)), hasher())
            },
            None => forall|i: int| 0 <= i < slots@.len() ==> !(#[trigger] slots@[i]).reusable(),
        },
{
    let ghost all = places(slots@);
    let hash: u64 = (key % 0x1_0000_0000_0000_0000) as u64;
    let ghost home = home_of(hash, ARENA_SLOTS as int);
    let mut steps: usize = 0;
    while steps < ARENA_SLOTS
        invariant
            steps <= ARENA_SLOTS,
            slots_wf(slots@),
            all == places(slots@),
            hash == hasher()(key),
            home == home_of(hash, ARENA_SLOTS as int),
            forall|i: int| 0 <= i < slots@.len() ==> !(#[trigger] slots@[i]).live(key),
            forall|e: int|
                0 <= e < steps ==> !slots@[#[trigger] probed(
                    home,
                    e,
                    ARENA_SLOTS as int,
                )].reusable(),
        decreases ARENA_SLOTS - steps,
    {
        let index: usize = probe_index(hash, steps, ARENA_SLOTS);
        let slot: Slot = slots[index];
        if slot.state == SlotState::Empty || (slot.state == SlotState::Retired && slot.pins == 0) {
            proof {
                assert(slots@[index as int].wf());
                lemma_steps(home, index as int, ARENA_SLOTS as int);
                assert forall|e: int| 0 <= e < steps implies !open_to(
                    slots@,
                    #[trigger] probed(home, e, ARENA_SLOTS as int),
                ) by {
                    assert(slots@[index as int].reusable());
                }
                lemma_placed(slots@, key, steps as int);
            }
            return Some(index);
        }
        steps = steps + 1;
    }
    assert forall|i: int| 0 <= i < slots@.len() implies !(#[trigger] slots@[i]).reusable() by {
        lemma_steps(home, i, ARENA_SLOTS as int);
        let e = steps_to(home, i, ARENA_SLOTS as int);
        assert(!slots@[probed(home, e, ARENA_SLOTS as int)].reusable());
    }
    None
}

/// Filing an absent key where no slot before it on its way can take a record
/// keeps searches working.
proof fn lemma_placed(slots: Seq<Slot>, key: u128, steps: int)
    requires
        slots_wf(slots),
        0 <= steps < slots.len(),
        forall|i: int| 0 <= i < slots.len() ==> !(#[trigger] slots[i]).live(key),
        forall|e: int|
            0 <= e < steps ==> !slots[#[trigger] probed(
                home_of(low_half(key), slots.len() as int),
                e,
                slots.len() as int,
            )].reusable(),
    ensures
        probing(
            places(slots).update(
                probed(home_of(low_half(key), slots.len() as int), steps, slots.len() as int),
                Place::Held(key),
            ),
            hasher(),
        ),
{
    let all = places(slots);
    let capacity = all.len() as int;
    let home = home_of(hasher()(key), capacity);
    assert forall|e: int| 0 <= e < steps implies !(#[trigger] all[probed(home, e, capacity)]
        is Empty) by {
        lemma_probed_inside(home, e, capacity);
        assert(!slots[probed(home, e, capacity)].reusable());
        assert(slots[probed(home, e, capacity)].wf());
    }
    assert(!holds(all, key)) by {
        if holds(all, key) {
            let i = choose|i: int| 0 <= i < all.len() && #[trigger] all[i] == Place::Held(key);
            assert(slots[i].live(key));
        }
    }
    lemma_put(all, hasher(), key, steps);
}

/// Finds the place for the record of an absent key: the first slot on its way that
/// can take one or, where no slot of the index can, the first one whose record no
/// reader holds. Filing the record there keeps searches working.
pub fn find_place(slots: &Vec<Slot>, key: u128) -> (place: Option<usize>)
    requires
        slots_wf(slots@),
        forall|i: int| 0 <= i < slots@.len() ==> !(#[trigger] slots@[i]).live(key),
    ensures
        match place {
            Some(place) => {
                &&& first_open(slots@, key, place as int)
                &&& probing(places(slots@).update(place as int, Place::Held(key)), hasher())
            },
            None => forall|i: int| 0 <= i < slots@.len() ==> (#[trigger] slots@[i]).pins > 0,
        },
{
    let free: Option<usize> = find_reusable(slots, key);
    if free.is_some() {
        return free;
    }
    let hash: u64 = (key % 0x1_0000_0000_0000_0000) as u64;
    let ghost home = home_of(hash, ARENA_SLOTS as int);
    let mut steps: usize = 0;
    while steps < ARENA_SLOTS
        invariant
            steps <= ARENA_SLOTS,
            slots_wf(slots@),
            hash == hasher()(key),
            home == home_of(hash, ARENA_SLOTS as int),
            forall|i: int| 0 <= i < slots@.len() ==> !(#[trigger] slots@[i]).live(key),
            forall|i: int| 0 <= i < slots@.len() ==> !(#[trigger] slots@[i]).reusable(),
            forall|e: int|
                0 <= e < steps ==> slots@[#[trigger] probed(home, e, ARENA_SLOTS as int)].pins > 0,
        decreases ARENA_SLOTS - steps,
    {
        let index: usize = probe_index(hash, steps, ARENA_SLOTS);
        if slots[index].pins == 0 {
            proof {
                lemma_steps(home, index as int, ARENA_SLOTS as int);
                assert forall|e: int| 0 <= e < steps implies !slots@[#[trigger] probed(
                    home,
                    e,
                    ARENA_SLOTS as int,
                )].reusable() by {
                    lemma_probed_inside(home, e, ARENA_SLOTS as int);
                }
                lemma_placed(slots@, key, steps as int);
            }
            return Some(index);
        }
        steps = steps + 1;
    }
    assert forall|i: int| 0 <= i < slots@.len() implies (#[trigger] slots@[i]).pins > 0 by {
        lemma_steps(home, i, ARENA_SLOTS as int);
        let e = steps_to(home, i, ARENA_SLOTS as int);
        assert(slots@[probed(home, e, ARENA_SLOTS as int)].pins > 0);
    }
    None
}

/// The slots after every record that meets these bytes and that no reader holds
/// was evicted.
pub open spec fn cleared(slots: Seq<Slot>, from: int, to: int) -> Seq<Slot> {
    slots.map_values(
        |slot: Slot|
            if slot.meets(from, to) && slot.pins == 0 {
                slot.evicted()
            } else {
                slot
            },
    )
}

/// The end of the last record that meets these bytes and that a reader holds.
pub open spec fn blocked_until(slots: Seq<Slot>, from: int, to: int) -> Option<int>
    decreases slots.len(),
{
    if slots.len() == 0 {
        None
    } else {
        let before = blocked_until(slots.drop_last(), from, to);
        let slot = slots.last();
        if slot.meets(from, to) && slot.pins > 0 {
            match before {
                Some(end) => Some(if end >= slot.end() {
                    end
                } else {
                    slot.end()
                }),
                None => Some(slot.end()),
            }
        } else {
            before
        }
    }
}

/// The cursor at which a record of `len` bytes can begin: no record wraps
/// around the end of the ring.
pub open spec fn settled(cursor: int, len: int) -> int {
    let position = cursor % ARENA_BYTES as int;
    if position + len > ARENA_BYTES {
        cursor + (ARENA_BYTES - position)
    } else {
        cursor
    }
}

/// The reservation of `len` bytes at a cursor, with at most `attempts`
/// attempts: each one evicts what is in the way, and moves past what readers
/// hold. It gives the slots and, on success, the cursor of the record.
pub open spec fn reserved(slots: Seq<Slot>, cursor: int, len: int, attempts: nat) -> (
    Seq<Slot>,
    Option<int>,
)
    decreases attempts,
{
    if attempts == 0 {
        (slots, None)
    } else {
        let begin = settled(cursor, len);
        let position = begin % ARENA_BYTES as int;
        let after = cleared(slots, position, position + len);
        match blocked_until(slots, position, position + len) {
            Some(past) => reserved(after, begin + (past - position), len, (attempts - 1) as nat),
            None => (after, Some(begin)),
        }
    }
}

/// Evicts every record that meets these bytes and that no reader holds. Returns
/// the end of the last one that a reader holds.
pub fn clear_span(slots: &mut Vec<Slot>, from: u64, to: u64) -> (blocked: Option<u64>)
    requires
        forall|i: int| 0 <= i < old(slots)@.len() ==> (#[trigger] old(slots)@[i]).wf(),
    ensures
        final(slots)@ == cleared(old(slots)@, from as int, to as int),
        match blocked {
            Some(past) => blocked_until(old(slots)@, from as int, to as int) == Some(past as int)
                && from < past <= ARENA_BYTES,
            None => blocked_until(old(slots)@, from as int, to as int) is None,
        },
{
    let ghost before = slots@;
    let mut blocked: Option<u64> = None;
    let mut index: usize = 0;
    assert(before.subrange(0, 0) =~= Seq::<Slot>::empty());
    while index < slots.len()
        invariant
            index <= slots@.len(),
            slots@.len() == before.len(),
            before == old(slots)@,
            forall|i: int| 0 <= i < before.len() ==> (#[trigger] before[i]).wf(),
            forall|i: int|
                index <= i < before.len() ==> #[trigger] slots@[i] == before[i],
            forall|i: int|
                0 <= i < index ==> #[trigger] slots@[i] == cleared(
                    before,
                    from as int,
                    to as int,
                )[i],
            match blocked {
                Some(past) => blocked_until(
                    before.subrange(0, index as int),
                    from as int,
                    to as int,
                ) == Some(past as int) && from < past <= ARENA_BYTES,
                None => blocked_until(
                    before.subrange(0, index as int),
                    from as int,
                    to as int,
                ) is None,
            },
        decreases slots@.len() - index,
    {
        let ghost prefix = before.subrange(0, index + 1);
        assert(prefix.drop_last() =~= before.subrange(0, index as int));
        assert(prefix.last() == before[index as int]);
        let slot: Slot = slots[index];
        assert(slot == before[index as int]);
        assert(slot.wf());
        if slot.state == SlotState::Live || slot.pins > 0 {
            let end: u64 = slot.body_offset + slot.body_len + slot.encoded_len;
            if !(end <= from || slot.body_offset >= to) {
                if slot.pins > 0 {
                    blocked = match blocked {
                        Some(past) => Some(if past >= end {
                            past
                        } else {
                            end
                        }),
                        None => Some(end),
                    };
                } else {
                    slots.set(index, slot.evict());
                }
            }
        }
        index = index + 1;
    }
    assert(before.subrange(0, before.len() as int) =~= before);
    assert(slots@ =~= cleared(before, from as int, to as int));
    blocked
}

/// Clearing a span evicts records that no reader holds, and nothing else.
pub proof fn lemma_cleared(slots: Seq<Slot>, from: int, to: int)
    ensures
        thinned(slots, cleared(slots, from, to)),
        forall|i: int|
            0 <= i < slots.len() && (#[trigger] slots[i]).pins > 0 ==> cleared(slots, from, to)[i]
                == slots[i],
{
}

/// Where nothing is blocked, no record that stays named meets the span.
pub proof fn lemma_unblocked(slots: Seq<Slot>, from: int, to: int, i: int)
    requires
        blocked_until(slots, from, to) is None,
        0 <= i < slots.len(),
    ensures
        !(slots[i].meets(from, to) && slots[i].pins > 0),
    decreases slots.len(),
{
    if i < slots.len() - 1 {
        lemma_unblocked(slots.drop_last(), from, to, i);
    }
}

/// A reservation evicts records that no reader holds, and nothing else. No
/// record that stays named meets the reserved bytes.
pub proof fn lemma_reserved(slots: Seq<Slot>, cursor: int, len: int, attempts: nat)
    requires
        forall|i: int| 0 <= i < slots.len() ==> (#[trigger] slots[i]).wf(),
        0 <= cursor,
        0 <= len <= ARENA_RECORD_MAX,
    ensures
        ({
            let (after, begin) = reserved(slots, cursor, len, attempts);
            &&& thinned(slots, after)
            &&& forall|i: int|
                0 <= i < slots.len() && (#[trigger] slots[i]).pins > 0 ==> after[i] == slots[i]
            &&& begin matches Some(begin) ==> {
                let position = begin % ARENA_BYTES as int;
                &&& 0 <= begin
                &&& position + len <= ARENA_BYTES
                &&& forall|i: int|
                    0 <= i < slots.len() ==> !(#[trigger] after[i]).meets(
                        position,
                        position + len,
                    )
            }
        }),
    decreases attempts,
{
    if attempts > 0 {
        let begin = settled(cursor, len);
        lemma_settled(cursor, len);
        let position = begin % ARENA_BYTES as int;
        let after = cleared(slots, position, position + len);
        lemma_cleared(slots, position, position + len);
        lemma_blocked_bound(slots, position, position + len);
        match blocked_until(slots, position, position + len) {
            Some(past) => {
                assert forall|i: int| 0 <= i < after.len() implies (#[trigger] after[i]).wf() by {
                    assert(slots[i].wf());
                }
                lemma_reserved(after, begin + (past - position), len, (attempts - 1) as nat);
                let (last, end) = reserved(
                    after,
                    begin + (past - position),
                    len,
                    (attempts - 1) as nat,
                );
                assert forall|i: int| 0 <= i < slots.len() && (#[trigger] slots[i]).pins > 0 implies last[i]
                    == slots[i] by {
                    assert(after[i] == slots[i]);
                }
                assert forall|i: int| 0 <= i < slots.len() implies (#[trigger] last[i]) == slots[i]
                    || last[i] == slots[i].evicted() by {
                    assert(after[i] == slots[i] || after[i] == slots[i].evicted());
                    assert(last[i] == after[i] || last[i] == after[i].evicted());
                }
            },
            None => {
                assert forall|i: int| 0 <= i < slots.len() implies !(#[trigger] after[i]).meets(
                    position,
                    position + len,
                ) by {
                    lemma_unblocked(slots, position, position + len, i);
                }
            },
        }
    }
}

/// A record that begins where the cursor settles ends inside the ring.
pub proof fn lemma_settled(cursor: int, len: int)
    requires
        0 <= cursor,
        0 <= len <= ARENA_RECORD_MAX,
    ensures
        cursor <= settled(cursor, len) <= cursor + ARENA_BYTES,
        settled(cursor, len) % ARENA_BYTES as int + len <= ARENA_BYTES,
        settled(cursor, len) % ARENA_BYTES as int == if cursor % ARENA_BYTES as int + len
            > ARENA_BYTES {
            0
        } else {
            cursor % ARENA_BYTES as int
        },
{
}

/// Reserves `len` bytes at a cursor: evicts what is in the way, and moves past
/// what readers hold. Gives the cursor of the reservation.
pub fn reserve(slots: &mut Vec<Slot>, cursor: u64, len: u64) -> (begin: Option<u64>)
    requires
        forall|i: int| 0 <= i < old(slots)@.len() ==> (#[trigger] old(slots)@[i]).wf(),
        cursor <= ARENA_CURSOR_MAX,
        len <= ARENA_RECORD_MAX,
    ensures
        ({
            let (after, place) = reserved(
                old(slots)@,
                cursor as int,
                len as int,
                ARENA_ATTEMPTS as nat,
            );
            &&& final(slots)@ == after
            &&& match begin {
                Some(begin) => place == Some(begin as int),
                None => place is None,
            }
        }),
        begin matches Some(begin) ==> begin + len <= cursor + ARENA_STRIDE_MAX,
{
    let mut at: u64 = cursor;
    let mut left: usize = ARENA_ATTEMPTS;
    while left > 0
        invariant
            left <= ARENA_ATTEMPTS,
            cursor <= ARENA_CURSOR_MAX,
            len <= ARENA_RECORD_MAX,
            at <= cursor + (ARENA_ATTEMPTS - left) * 0x800_0000,
            forall|i: int| 0 <= i < slots@.len() ==> (#[trigger] slots@[i]).wf(),
            reserved(old(slots)@, cursor as int, len as int, ARENA_ATTEMPTS as nat) == reserved(
                slots@,
                at as int,
                len as int,
                left as nat,
            ),
        decreases left,
    {
        proof {
            lemma_settled(at as int, len as int);
        }
        let ring: u64 = ARENA_BYTES as u64;
        let mut begin: u64 = at;
        let mut position: u64 = at % ring;
        if position + len > ring {
            begin = at + (ring - position);
            position = 0;
        }
        assert(begin == settled(at as int, len as int));
        assert(position == begin as int % ARENA_BYTES as int);
        let ghost before = slots@;
        proof {
            lemma_cleared(before, position as int, position + len);
        }
        let blocked: Option<u64> = clear_span(slots, position, position + len);
        match blocked {
            Some(past) => {
                assert forall|i: int| 0 <= i < slots@.len() implies (#[trigger] slots@[i]).wf() by {
                    assert(before[i].wf());
                }
                at = begin + (past - position);
            },
            None => {
                return Some(begin);
            },
        }
        left = left - 1;
    }
    None
}

proof fn lemma_blocked_bound(slots: Seq<Slot>, from: int, to: int)
    requires
        forall|i: int| 0 <= i < slots.len() ==> (#[trigger] slots[i]).wf(),
    ensures
        blocked_until(slots, from, to) matches Some(past) ==> from < past <= ARENA_BYTES,
    decreases slots.len(),
{
    if slots.len() > 0 {
        let shorter = slots.drop_last();
        assert forall|i: int| 0 <= i < shorter.len() implies (#[trigger] shorter[i]).wf() by {
            assert(slots[i].wf());
        }
        lemma_blocked_bound(shorter, from, to);
        assert(slots[slots.len() - 1].wf());
    }
}

} // verus!
