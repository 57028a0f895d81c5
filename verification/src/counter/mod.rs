//! Keyed fleet counters in one table of fixed size.
//!
//! A counter is current state, not history. A key is installed once and keeps
//! its place; its value is a signed number of 64 bits.
pub mod image;
pub mod laws;

use vstd::prelude::*;
use vstd::string::*;

use crate::codec::{same_bytes, to_vec};
use crate::decimal::{digits, push_number, push_signed, signed};
use crate::fnv::{fnv, hash_of};
use crate::probe::{
    holds, home_of, lemma_absent, lemma_put, probe_index, probed, probing, unmet, Place,
};
use crate::table::StateHeader;

verus! {

/// The kind of the counter table's segment.
pub const COUNTER_STATE_KIND: u8 = 230;

/// How many keys can be installed.
pub const COUNTER_CAPACITY: usize = 1_024;

/// The longest key, in bytes.
pub const COUNTER_KEY_MAX: usize = 240;

/// Bytes of one place in shared memory.
pub const COUNTER_SLOT_BYTES: usize = 320;

/// Why the counters refuse a request.
#[derive(Clone, Copy, Debug, PartialEq, Eq, Structural)]
pub enum Error {
    KeyEmpty,
    KeyTooLarge { len: usize, max: usize },
    NegativeAmount(i64),
    Overflow,
    StateFull { capacity: usize },
}

/// One place of the counter table.
#[derive(Debug)]
pub enum CounterSlot {
    Empty,
    Occupied { key_hash: u64, key: Vec<u8>, value: i64 },
    /// Shared memory has something here at which no search for a key ends.
    Foreign { bytes: Vec<u8> },
}

/// What a place of the counter table says.
pub enum SlotView {
    Empty,
    Occupied(Seq<u8>, i64),
    Foreign(Seq<u8>),
}

impl View for CounterSlot {
    type V = SlotView;

    open spec fn view(&self) -> SlotView {
        match self {
            CounterSlot::Empty => SlotView::Empty,
            CounterSlot::Occupied { key_hash, key, value } => SlotView::Occupied(key@, *value),
            CounterSlot::Foreign { bytes } => SlotView::Foreign(bytes@),
        }
    }
}

impl SlotView {
    /// What the place means to a search.
    pub open spec fn place(self) -> Place<Seq<u8>> {
        match self {
            SlotView::Empty => Place::Empty,
            SlotView::Occupied(key, value) => Place::Held(key),
            SlotView::Foreign(bytes) => Place::Gone,
        }
    }
}

/// True when a place has room for what is there.
pub open spec fn fits(slot: SlotView) -> bool {
    match slot {
        SlotView::Empty => true,
        SlotView::Occupied(key, value) => key.len() <= COUNTER_KEY_MAX,
        SlotView::Foreign(bytes) => bytes.len() == COUNTER_SLOT_BYTES,
    }
}

/// The hash of keys, as a function.
pub open spec fn hasher() -> spec_fn(Seq<u8>) -> u64 {
    |key: Seq<u8>| fnv(key)
}

/// What the places mean to a search.
pub open spec fn places(slots: Seq<SlotView>) -> Seq<Place<Seq<u8>>> {
    slots.map_values(|slot: SlotView| slot.place())
}

/// The values that these places hold, by key.
pub open spec fn values(slots: Seq<SlotView>) -> Map<Seq<u8>, i64>
    decreases slots.len(),
{
    if slots.len() == 0 {
        Map::empty()
    } else {
        match slots.last() {
            SlotView::Occupied(key, value) => values(slots.drop_last()).insert(key, value),
            _ => values(slots.drop_last()),
        }
    }
}

/// How many places a key can have.
pub open spec fn usable(slots: Seq<SlotView>) -> nat
    decreases slots.len(),
{
    if slots.len() == 0 {
        0
    } else if slots.last() is Foreign {
        usable(slots.drop_last())
    } else {
        usable(slots.drop_last()) + 1
    }
}

/// What is written over a place that a key can have changes nothing of how many there
/// are.
pub proof fn lemma_usable(slots: Seq<SlotView>, place: int, slot: SlotView)
    requires
        0 <= place < slots.len(),
        !(slots[place] is Foreign),
        !(slot is Foreign),
    ensures
        usable(slots.update(place, slot)) == usable(slots),
    decreases slots.len(),
{
    let after = slots.update(place, slot);
    if place == slots.len() - 1 {
        assert(after.drop_last() =~= slots.drop_last());
    } else {
        assert(after.drop_last() =~= slots.drop_last().update(place, slot));
        lemma_usable(slots.drop_last(), place, slot);
    }
}

/// A key can have every place of a table that has nothing foreign in it.
pub proof fn lemma_all_usable(slots: Seq<SlotView>)
    requires
        forall|i: int| 0 <= i < slots.len() ==> !((#[trigger] slots[i]) is Foreign),
    ensures
        usable(slots) == slots.len(),
    decreases slots.len(),
{
    if slots.len() > 0 {
        assert forall|i: int| 0 <= i < slots.len() - 1 implies !((
        #[trigger] slots.drop_last()[i]) is Foreign) by {
            assert(slots.drop_last()[i] == slots[i]);
        }
        lemma_all_usable(slots.drop_last());
    }
}

/// True when no two places hold one key.
pub open spec fn distinct(slots: Seq<SlotView>) -> bool {
    forall|i: int, j: int|
        0 <= i < slots.len() && 0 <= j < slots.len() && i != j && slots[i] is Occupied
            && slots[j] is Occupied ==> (#[trigger] slots[i])->Occupied_0 != (
        #[trigger] slots[j])->Occupied_0
}

/// True when a place holds a key.
pub open spec fn held_at(slots: Seq<SlotView>, i: int, key: Seq<u8>) -> bool {
    0 <= i < slots.len() && slots[i] is Occupied && slots[i]->Occupied_0 == key
}

/// A key has a value when a place holds it, and then the one that is there.
pub proof fn lemma_values(slots: Seq<SlotView>, key: Seq<u8>)
    requires
        distinct(slots),
    ensures
        values(slots).contains_key(key) <==> exists|i: int| #[trigger] held_at(slots, i, key),
        forall|i: int| #[trigger]
            held_at(slots, i, key) ==> values(slots).contains_key(key) && values(slots)[key]
                == slots[i]->Occupied_1,
    decreases slots.len(),
{
    if slots.len() > 0 {
        let shorter = slots.drop_last();
        let last = slots.len() - 1;
        assert(distinct(shorter)) by {
            assert forall|i: int, j: int|
                0 <= i < shorter.len() && 0 <= j < shorter.len() && i != j && shorter[i] is Occupied
                    && shorter[j] is Occupied implies (#[trigger] shorter[i])->Occupied_0 != (
            #[trigger] shorter[j])->Occupied_0 by {
                assert(slots[i] is Occupied && slots[j] is Occupied);
            }
        }
        lemma_values(shorter, key);
        if exists|i: int| #[trigger] held_at(shorter, i, key) {
            let i = choose|i: int| #[trigger] held_at(shorter, i, key);
            assert(held_at(slots, i, key));
        }
        if held_at(slots, last, key) {
            assert forall|i: int| #[trigger] held_at(slots, i, key) implies i == last by {
                if i != last {
                    assert(slots[i]->Occupied_0 != slots[last]->Occupied_0);
                }
            }
        }
        assert forall|i: int| #[trigger] held_at(slots, i, key) implies values(
            slots,
        ).contains_key(key) && values(slots)[key] == slots[i]->Occupied_1 by {
            if i != last {
                assert(held_at(shorter, i, key));
                if slots[last] is Occupied {
                    assert(slots[i]->Occupied_0 != slots[last]->Occupied_0);
                }
            }
        }
        if values(slots).contains_key(key) && !values(shorter).contains_key(key) {
            assert(held_at(slots, last, key));
        }
    }
}

/// There are no more values than places that a key can have, and room for one more
/// where a place is empty.
pub proof fn lemma_room(slots: Seq<SlotView>)
    requires
        distinct(slots),
    ensures
        values(slots).dom().finite(),
        values(slots).dom().len() <= usable(slots),
        values(slots).dom().len() == usable(slots) <==> forall|i: int|
            0 <= i < slots.len() ==> !((#[trigger] slots[i]) is Empty),
    decreases slots.len(),
{
    if slots.len() > 0 {
        let shorter = slots.drop_last();
        let last = slots.len() - 1;
        assert(distinct(shorter)) by {
            assert forall|i: int, j: int|
                0 <= i < shorter.len() && 0 <= j < shorter.len() && i != j && shorter[i] is Occupied
                    && shorter[j] is Occupied implies (#[trigger] shorter[i])->Occupied_0 != (
            #[trigger] shorter[j])->Occupied_0 by {
                assert(slots[i] is Occupied && slots[j] is Occupied);
            }
        }
        lemma_room(shorter);
        assert forall|i: int| 0 <= i < shorter.len() implies slots[i] == #[trigger] shorter[i] by {}
        match slots[last] {
            SlotView::Empty => {
                assert(slots[last] is Empty);
            },
            SlotView::Foreign(bytes) => {},
            SlotView::Occupied(key, value) => {
                lemma_values(shorter, key);
                if values(shorter).contains_key(key) {
                    let i = choose|i: int| #[trigger] held_at(shorter, i, key);
                    assert(slots[i]->Occupied_0 != slots[last]->Occupied_0);
                }
                assert(values(slots).dom() =~= values(shorter).dom().insert(key));
            },
        }
        if forall|i: int| 0 <= i < slots.len() ==> !((#[trigger] slots[i]) is Empty) {
            assert forall|i: int| 0 <= i < shorter.len() implies !((
            #[trigger] shorter[i]) is Empty) by {
                assert(!(slots[i] is Empty));
            }
        }
        if !(slots[last] is Empty) && forall|i: int|
            0 <= i < shorter.len() ==> !((#[trigger] shorter[i]) is Empty) {
            assert forall|i: int| 0 <= i < slots.len() implies !((
            #[trigger] slots[i]) is Empty) by {
                if i < last {
                    assert(!(shorter[i] is Empty));
                }
            }
        }
    }
}

/// Writing a key's value at its place, or at an empty one where the key is
/// absent, sets that value and no other.
pub proof fn lemma_written(slots: Seq<SlotView>, place: int, key: Seq<u8>, value: i64)
    requires
        distinct(slots),
        distinct(slots.update(place, SlotView::Occupied(key, value))),
        0 <= place < slots.len(),
        slots[place] is Empty || held_at(slots, place, key),
    ensures
        values(slots.update(place, SlotView::Occupied(key, value))) == values(slots).insert(
            key,
            value,
        ),
{
    let after = slots.update(place, SlotView::Occupied(key, value));
    assert(held_at(after, place, key));
    assert forall|other: Seq<u8>| #[trigger]
        values(after).contains_key(other) <==> values(slots).insert(key, value).contains_key(
            other,
        ) by {
        lemma_values(after, other);
        lemma_values(slots, other);
        if other != key {
            if values(after).contains_key(other) {
                let i = choose|i: int| #[trigger] held_at(after, i, other);
                assert(held_at(slots, i, other));
            }
            if values(slots).contains_key(other) {
                let i = choose|i: int| #[trigger] held_at(slots, i, other);
                assert(held_at(after, i, other));
            }
        }
    }
    assert forall|other: Seq<u8>| #[trigger] values(after).contains_key(other) implies values(
        after,
    )[other] == values(slots).insert(key, value)[other] by {
        lemma_values(after, other);
        lemma_values(slots, other);
        let i = choose|i: int| #[trigger] held_at(after, i, other);
        if other != key {
            assert(held_at(slots, i, other));
        }
    }
    assert(values(after) =~= values(slots).insert(key, value));
}

/// Why a key is refused.
pub open spec fn key_fault(key: Seq<u8>) -> Option<Error> {
    if key.len() == 0 {
        Some(Error::KeyEmpty)
    } else if key.len() > COUNTER_KEY_MAX {
        Some(Error::KeyTooLarge { len: key.len() as usize, max: COUNTER_KEY_MAX })
    } else {
        None
    }
}

/// What adding to a counter gives, in a table with room for so many keys: the value
/// after the update.
pub open spec fn updated(
    counters: Map<Seq<u8>, i64>,
    room: nat,
    key: Seq<u8>,
    delta: int,
) -> Result<i64, Error> {
    if key_fault(key) is Some {
        Err(key_fault(key)->0)
    } else if counters.contains_key(key) {
        if i64::MIN <= counters[key] + delta <= i64::MAX {
            Ok((counters[key] + delta) as i64)
        } else {
            Err(Error::Overflow)
        }
    } else if counters.dom().len() == room {
        Err(Error::StateFull { capacity: COUNTER_CAPACITY })
    } else {
        Ok(delta as i64)
    }
}

/// The counters after an update that gave this result.
pub open spec fn after_update(
    counters: Map<Seq<u8>, i64>,
    key: Seq<u8>,
    result: Result<i64, Error>,
) -> Map<Seq<u8>, i64> {
    match result {
        Ok(value) => counters.insert(key, value),
        Err(_) => counters,
    }
}

/// Where a search for a key ended.
enum Found {
    /// The key is here.
    At(usize),
    /// The key is absent, and this is the empty place at which it can come in.
    Free(usize),
    /// The key is absent, and no place is empty.
    Nowhere,
}

/// Fleet-wide keyed signed counters.
///
/// A missing key starts at zero.
#[derive(Debug)]
pub struct Counter {
    slots: Vec<CounterSlot>,
}

impl View for Counter {
    type V = Map<Seq<u8>, i64>;

    closed spec fn view(&self) -> Map<Seq<u8>, i64> {
        values(self.slot_views())
    }
}

impl Counter {
    spec fn slot_views(&self) -> Seq<SlotView> {
        self.slots@.map_values(|slot: CounterSlot| slot@)
    }

    /// Searches work, and every key was hashed.
    pub closed spec fn wf(&self) -> bool {
        &&& self.slots@.len() == COUNTER_CAPACITY
        &&& probing(places(self.slot_views()), hasher())
        &&& forall|i: int|
            0 <= i < self.slots@.len() ==> {
                let slot = #[trigger] self.slots@[i];
                &&& fits(slot@)
                &&& slot is Occupied ==> slot->key_hash == fnv(slot->key@)
            }
    }

    /// For how many keys the table has room.
    pub closed spec fn room(&self) -> nat {
        usable(self.slot_views())
    }

    /// The places of the table.
    pub closed spec fn places_view(&self) -> Seq<SlotView> {
        self.slot_views()
    }

    /// The values are those of the places.
    pub(crate) proof fn lemma_values_of(&self)
        ensures
            self@ == values(self.places_view()),
            self.room() == usable(self.places_view()),
    {
    }

    /// What well-formedness says of the places.
    pub(crate) proof fn lemma_places(&self)
        requires
            self.wf(),
        ensures
            self.places_view().len() == COUNTER_CAPACITY,
            probing(places(self.places_view()), hasher()),
            forall|i: int| 0 <= i < COUNTER_CAPACITY ==> fits(#[trigger] self.places_view()[i]),
    {
        assert forall|i: int| 0 <= i < COUNTER_CAPACITY implies fits(
            #[trigger] self.places_view()[i],
        ) by {
            assert(self.places_view()[i] == self.slots@[i]@);
        }
    }

    /// The slots.
    pub(crate) fn slots(&self) -> (slots: &Vec<CounterSlot>)
        ensures
            slots@.len() == self.places_view().len(),
            forall|i: int| 0 <= i < slots@.len() ==> (#[trigger] slots@[i])@ == self.places_view()[i],
            self.wf() ==> forall|i: int|
                0 <= i < slots@.len() && (#[trigger] slots@[i]) is Occupied ==> slots@[i]->key_hash
                    == fnv(slots@[i]->key@),
    {
        &self.slots
    }

    /// A table of these slots.
    pub(crate) fn from_slots(slots: Vec<CounterSlot>) -> (counter: Counter)
        requires
            slots@.len() == COUNTER_CAPACITY,
            probing(places(slots@.map_values(|slot: CounterSlot| slot@)), hasher()),
            forall|i: int|
                0 <= i < slots@.len() ==> {
                    let slot = #[trigger] slots@[i];
                    &&& fits(slot@)
                    &&& slot is Occupied ==> slot->key_hash == fnv(slot->key@)
                },
        ensures
            counter.wf(),
            counter.places_view() == slots@.map_values(|slot: CounterSlot| slot@),
    {
        Counter { slots }
    }

    proof fn lemma_distinct(&self)
        requires
            self.wf(),
        ensures
            distinct(self.slot_views()),
    {
        let views = self.slot_views();
        let all = places(views);
        assert forall|i: int, j: int|
            0 <= i < views.len() && 0 <= j < views.len() && i != j && views[i] is Occupied
                && views[j] is Occupied implies (#[trigger] views[i])->Occupied_0 != (
        #[trigger] views[j])->Occupied_0 by {
            assert(all[i] == views[i].place());
            assert(all[j] == views[j].place());
        }
    }

    /// A table without keys.
    pub fn new() -> (counter: Counter)
        ensures
            counter.wf(),
            counter@ == Map::<Seq<u8>, i64>::empty(),
            counter.room() == COUNTER_CAPACITY,
    {
        let mut slots: Vec<CounterSlot> = Vec::new();
        while slots.len() < COUNTER_CAPACITY
            invariant
                slots@.len() <= COUNTER_CAPACITY,
                forall|i: int| 0 <= i < slots@.len() ==> (#[trigger] slots@[i]) is Empty,
            decreases COUNTER_CAPACITY - slots@.len(),
        {
            slots.push(CounterSlot::Empty);
        }
        let counter = Counter { slots };
        proof {
            counter.lemma_cleared();
        }
        counter
    }

    proof fn lemma_cleared(&self)
        requires
            self.slots@.len() == COUNTER_CAPACITY,
            forall|i: int| 0 <= i < self.slots@.len() ==> (#[trigger] self.slots@[i]) is Empty,
        ensures
            self.wf(),
            self@ == Map::<Seq<u8>, i64>::empty(),
            self.room() == COUNTER_CAPACITY,
    {
        let views = self.slot_views();
        let all = places(views);
        assert forall|i: int| 0 <= i < all.len() implies (#[trigger] all[i]) is Empty by {
            assert(views[i] == self.slots@[i]@);
        }
        lemma_all_usable(views);
        self.lemma_distinct();
        assert forall|key: Seq<u8>| !(#[trigger] values(views).contains_key(key)) by {
            lemma_values(views, key);
            if values(views).contains_key(key) {
                let i = choose|i: int| #[trigger] held_at(views, i, key);
                assert(all[i] is Empty);
            }
        }
        assert(values(views) =~= Map::<Seq<u8>, i64>::empty());
    }

    /// Searches a key.
    fn find(&self, key: &[u8]) -> (found: Found)
        requires
            self.wf(),
        ensures
            match found {
                Found::At(place) => held_at(self.slot_views(), place as int, key@),
                Found::Free(place) => {
                    &&& place < self.slots@.len()
                    &&& self.slots@[place as int] is Empty
                    &&& !self@.contains_key(key@)
                    &&& self@.dom().len() < self.room()
                    &&& probing(
                        places(self.slot_views()).update(place as int, Place::Held(key@)),
                        hasher(),
                    )
                },
                Found::Nowhere => {
                    &&& !self@.contains_key(key@)
                    &&& self@.dom().len() == self.room()
                },
            },
    {
        let ghost views = self.slot_views();
        let ghost all = places(views);
        let hash: u64 = hash_of(key);
        proof {
            self.lemma_distinct();
            lemma_values(views, key@);
            lemma_room(views);
        }
        let mut steps: usize = 0;
        while steps < COUNTER_CAPACITY
            invariant
                steps <= COUNTER_CAPACITY,
                self.wf(),
                views == self.slot_views(),
                all == places(views),
                hash == hasher()(key@),
                unmet(all, hasher(), key@, steps as int),
                distinct(views),
                values(views).contains_key(key@) <==> exists|i: int| #[trigger]
                    held_at(views, i, key@),
                values(views).dom().len() <= usable(views),
                values(views).dom().len() == usable(views) <==> forall|i: int|
                    0 <= i < views.len() ==> !((#[trigger] views[i]) is Empty),
            decreases COUNTER_CAPACITY - steps,
        {
            let index: usize = probe_index(hash, steps, COUNTER_CAPACITY);
            assert(views[index as int] == self.slots@[index as int]@);
            assert(all[index as int] == views[index as int].place());
            match &self.slots[index] {
                CounterSlot::Empty => {
                    proof {
                        lemma_absent(all, hasher(), key@, steps as int);
                        self.lemma_unheld(key@);
                        lemma_put(all, hasher(), key@, steps as int);
                        assert(views[index as int] is Empty);
                    }
                    return Found::Free(index);
                },
                CounterSlot::Occupied { key_hash, key: stored, value: _ } => {
                    if *key_hash == hash && same_bytes(stored.as_slice(), key) {
                        return Found::At(index);
                    }
                    proof {
                        assert(self.slots@[index as int]->key_hash == fnv(stored@));
                        assert(stored@ != key@);
                    }
                },
                CounterSlot::Foreign { .. } => {},
            }
            steps = steps + 1;
        }
        proof {
            lemma_absent(all, hasher(), key@, steps as int);
            self.lemma_unheld(key@);
            assert forall|i: int| 0 <= i < views.len() implies !((#[trigger] views[i]) is Empty) by {
                let home = home_of(hash, COUNTER_CAPACITY as int);
                crate::probe::lemma_steps(home, i, COUNTER_CAPACITY as int);
                let e = crate::probe::steps_to(home, i, COUNTER_CAPACITY as int);
                assert(!(all[probed(home_of(hasher()(key@), all.len() as int), e, all.len() as int)] is Empty));
                assert(all[i] == views[i].place());
            }
        }
        Found::Nowhere
    }

    proof fn lemma_unheld(&self, key: Seq<u8>)
        requires
            self.wf(),
            !holds(places(self.slot_views()), key),
        ensures
            !self@.contains_key(key),
    {
        let views = self.slot_views();
        self.lemma_distinct();
        lemma_values(views, key);
        if self@.contains_key(key) {
            let i = choose|i: int| #[trigger] held_at(views, i, key);
            assert(places(views)[i] == Place::Held(key));
        }
    }

    /// Writes the value of a key at its place, or at the place at which it can
    /// come in.
    fn write(&mut self, place: usize, key: &[u8], value: i64)
        requires
            old(self).wf(),
            key@.len() <= COUNTER_KEY_MAX,
            held_at(old(self).slot_views(), place as int, key@) || (place < old(self).slots@.len()
                && old(self).slots@[place as int] is Empty && probing(
                places(old(self).slot_views()).update(place as int, Place::Held(key@)),
                hasher(),
            )),
        ensures
            final(self).wf(),
            final(self)@ == old(self)@.insert(key@, value),
            final(self).room() == old(self).room(),
    {
        let ghost before = self.slot_views();
        proof {
            self.lemma_distinct();
            assert(before[place as int] == self.slots@[place as int]@);
        }
        let slot = CounterSlot::Occupied { key_hash: hash_of(key), key: to_vec(key), value };
        self.slots.set(place, slot);
        proof {
            let after = self.slot_views();
            assert(after =~= before.update(place as int, SlotView::Occupied(key@, value)));
            assert(places(after) =~= places(before).update(place as int, Place::Held(key@)));
            if held_at(before, place as int, key@) {
                assert(places(after) =~= places(before));
            }
            self.lemma_distinct();
            lemma_usable(before, place as int, SlotView::Occupied(key@, value));
            lemma_written(before, place as int, key@, value);
        }
    }

    /// The value of a key, if it was installed.
    pub fn get(&self, key: &str) -> (value: Result<Option<i64>, Error>)
        requires
            self.wf(),
        ensures
            match key_fault(key.spec_bytes()) {
                Some(error) => value == Err::<Option<i64>, Error>(error),
                None => value == Ok::<Option<i64>, Error>(
                    if self@.contains_key(key.spec_bytes()) {
                        Some(self@[key.spec_bytes()])
                    } else {
                        None
                    },
                ),
            },
    {
        let bytes: &[u8] = key.as_bytes();
        match validate_key(bytes) {
            Ok(_) => {},
            Err(error) => {
                return Err(error);
            },
        }
        match self.find(bytes) {
            Found::At(place) => {
                proof {
                    self.lemma_distinct();
                    lemma_values(self.slot_views(), bytes@);
                }
                Ok(Some(self.value_at(place)))
            },
            _ => Ok(None),
        }
    }

    fn value_at(&self, place: usize) -> (value: i64)
        requires
            self.wf(),
            place < self.slots@.len(),
            self.slot_views()[place as int] is Occupied,
        ensures
            value == self.slot_views()[place as int]->Occupied_1,
    {
        match &self.slots[place] {
            CounterSlot::Occupied { value, .. } => *value,
            _ => 0,
        }
    }

    /// Adds to a counter, and gives the value after the update.
    pub fn increment(&mut self, key: &str, by: i64) -> (value: Result<i64, Error>)
        requires
            old(self).wf(),
        ensures
            final(self).wf(),
            value == if by < 0 {
                Err(Error::NegativeAmount(by))
            } else {
                updated(old(self)@, old(self).room(), key.spec_bytes(), by as int)
            },
            final(self).room() == old(self).room(),
            final(self)@ == after_update(old(self)@, key.spec_bytes(), value),
    {
        if by < 0 {
            return Err(Error::NegativeAmount(by));
        }
        self.update(key.as_bytes(), by)
    }

    /// Takes from a counter, and gives the value after the update.
    pub fn decrement(&mut self, key: &str, by: i64) -> (value: Result<i64, Error>)
        requires
            old(self).wf(),
        ensures
            final(self).wf(),
            value == if by < 0 {
                Err(Error::NegativeAmount(by))
            } else {
                updated(old(self)@, old(self).room(), key.spec_bytes(), -by)
            },
            final(self).room() == old(self).room(),
            final(self)@ == after_update(old(self)@, key.spec_bytes(), value),
    {
        if by < 0 {
            return Err(Error::NegativeAmount(by));
        }
        self.update(key.as_bytes(), -by)
    }

    /// Sets a key to zero; installs it where it is missing.
    pub fn reset(&mut self, key: &str) -> (done: Result<(), Error>)
        requires
            old(self).wf(),
        ensures
            final(self).wf(),
            match key_fault(key.spec_bytes()) {
                Some(error) => done == Err::<(), Error>(error),
                None => if !old(self)@.contains_key(key.spec_bytes()) && old(self)@.dom().len()
                    == old(self).room() {
                    done == Err::<(), Error>(Error::StateFull { capacity: COUNTER_CAPACITY })
                } else {
                    done is Ok
                },
            },
            final(self).room() == old(self).room(),
            final(self)@ == if done is Ok {
                old(self)@.insert(key.spec_bytes(), 0)
            } else {
                old(self)@
            },
    {
        let bytes: &[u8] = key.as_bytes();
        match validate_key(bytes) {
            Ok(_) => {},
            Err(error) => {
                return Err(error);
            },
        }
        match self.find(bytes) {
            Found::At(place) => {
                proof {
                    self.lemma_distinct();
                    lemma_values(self.slot_views(), bytes@);
                }
                self.write(place, bytes, 0);
                Ok(())
            },
            Found::Free(place) => {
                self.write(place, bytes, 0);
                Ok(())
            },
            Found::Nowhere => Err(Error::StateFull { capacity: COUNTER_CAPACITY }),
        }
    }

    /// Clears the whole table.
    pub fn reset_all(&mut self)
        requires
            old(self).wf(),
        ensures
            final(self).wf(),
            final(self)@ == Map::<Seq<u8>, i64>::empty(),
            final(self).room() == COUNTER_CAPACITY,
    {
        let mut index: usize = 0;
        while index < self.slots.len()
            invariant
                self.slots@.len() == COUNTER_CAPACITY,
                index <= self.slots@.len(),
                forall|i: int| 0 <= i < index ==> (#[trigger] self.slots@[i]) is Empty,
            decreases self.slots@.len() - index,
        {
            self.slots.set(index, CounterSlot::Empty);
            index = index + 1;
        }
        proof {
            self.lemma_cleared();
        }
    }

    fn update(&mut self, key: &[u8], delta: i64) -> (value: Result<i64, Error>)
        requires
            old(self).wf(),
        ensures
            final(self).wf(),
            value == updated(old(self)@, old(self).room(), key@, delta as int),
            final(self).room() == old(self).room(),
            final(self)@ == after_update(old(self)@, key@, value),
    {
        match validate_key(key) {
            Ok(_) => {},
            Err(error) => {
                return Err(error);
            },
        }
        match self.find(key) {
            Found::At(place) => {
                proof {
                    self.lemma_distinct();
                    lemma_values(self.slot_views(), key@);
                }
                let current: i64 = self.value_at(place);
                match current.checked_add(delta) {
                    Some(value) => {
                        self.write(place, key, value);
                        Ok(value)
                    },
                    None => Err(Error::Overflow),
                }
            },
            Found::Free(place) => {
                self.write(place, key, delta);
                Ok(delta)
            },
            Found::Nowhere => Err(Error::StateFull { capacity: COUNTER_CAPACITY }),
        }
    }
}

/// Checks a key.
fn validate_key(key: &[u8]) -> (valid: Result<(), Error>)
    ensures
        match key_fault(key@) {
            Some(error) => valid == Err::<(), Error>(error),
            None => valid is Ok,
        },
{
    if key.len() == 0 {
        return Err(Error::KeyEmpty);
    }
    if key.len() > COUNTER_KEY_MAX {
        return Err(Error::KeyTooLarge { len: key.len(), max: COUNTER_KEY_MAX });
    }
    Ok(())
}

/// The header of a counter table in shared memory.
pub fn counter_header() -> (header: StateHeader)
    ensures
        header == (StateHeader {
            magic: 0x4343_4E54,
            version: 1,
            header_size: 64,
            capacity: COUNTER_CAPACITY as u32,
            slot_size: 320,
        }),
{
    StateHeader {
        magic: 0x4343_4E54,
        version: 1,
        header_size: 64,
        capacity: COUNTER_CAPACITY as u32,
        slot_size: 320,
    }
}

impl Error {
    /// The error, in words.
    pub open spec fn text(self) -> Seq<char> {
        match self {
            Error::KeyEmpty => "counter key must not be empty"@,
            Error::KeyTooLarge { len, max } => "counter key is too large: len="@
                + digits(len as nat) + " max="@ + digits(max as nat),
            Error::NegativeAmount(value) => "counter amount must not be negative: "@
                + signed(value as int),
            Error::Overflow => "counter value is outside the signed 64-bit range"@,
            Error::StateFull { capacity } => "counter state table is full: capacity="@
                + digits(capacity as nat),
        }
    }

    /// The error, in words.
    pub fn to_string(&self) -> (text: String)
        ensures
            text@ == self.text(),
    {
        match self {
            Error::KeyEmpty => "counter key must not be empty".to_owned(),
            Error::KeyTooLarge { len, max } => {
                let mut text: String = "counter key is too large: len=".to_owned();
                push_number(&mut text, *len as u64);
                text.append(" max=");
                push_number(&mut text, *max as u64);
                text
            },
            Error::NegativeAmount(value) => {
                let mut text: String = "counter amount must not be negative: ".to_owned();
                push_signed(&mut text, *value);
                text
            },
            Error::Overflow => "counter value is outside the signed 64-bit range".to_owned(),
            Error::StateFull { capacity } => {
                let mut text: String = "counter state table is full: capacity=".to_owned();
                push_number(&mut text, *capacity as u64);
                text
            },
        }
    }
}

} // verus!
