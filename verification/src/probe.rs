//! Open addressing with linear probing in a table of fixed size.
//!
//! A key lives at its home place, or behind it at the first place that was free
//! when it came. A place that was given up is not empty again, so a search may
//! stop at the first empty place.
use vstd::prelude::*;

verus! {

/// What a table has at one place.
pub enum Place<K> {
    /// Nothing was ever here.
    Empty,
    /// What was here is gone.
    Gone,
    /// A key is here.
    Held(K),
}

/// The place that a probe reaches after `steps` from its home.
pub open spec fn probed(home: int, steps: int, capacity: int) -> int {
    (home + steps) % capacity
}

/// How many steps a probe from its home needs to a place.
pub open spec fn steps_to(home: int, place: int, capacity: int) -> int {
    (place - home) % capacity
}

/// The home of a hash.
pub open spec fn home_of(hash: u64, capacity: int) -> int {
    hash as int % capacity
}

/// A probe reaches each place after exactly one number of steps.
pub proof fn lemma_steps(home: int, place: int, capacity: int)
    requires
        0 < capacity,
        0 <= place < capacity,
    ensures
        0 <= steps_to(home, place, capacity) < capacity,
        probed(home, steps_to(home, place, capacity), capacity) == place,
        forall|steps: int|
            0 <= steps < capacity && #[trigger] probed(home, steps, capacity) == place ==> steps
                == steps_to(home, place, capacity),
{
    let steps = steps_to(home, place, capacity);
    vstd::arithmetic::div_mod::lemma_mod_bound(place - home, capacity);
    vstd::arithmetic::div_mod::lemma_add_mod_noop_right(home, place - home, capacity);
    assert((home + (place - home) % capacity) % capacity == place % capacity);
    vstd::arithmetic::div_mod::lemma_small_mod(place as nat, capacity as nat);
    assert forall|other: int|
        0 <= other < capacity && #[trigger] probed(home, other, capacity) == place implies other
        == steps by {
        if other < steps {
            crate::numbers::lemma_slots_differ(home + other, home + steps, capacity);
        } else if steps < other {
            crate::numbers::lemma_slots_differ(home + steps, home + other, capacity);
        }
    }
}

/// A probe stays inside the table.
pub proof fn lemma_probed_inside(home: int, steps: int, capacity: int)
    requires
        0 < capacity,
    ensures
        0 <= probed(home, steps, capacity) < capacity,
{
    vstd::arithmetic::div_mod::lemma_mod_bound(home + steps, capacity);
}

/// True when no place on the way from a key's home to the key is empty.
pub open spec fn chained<K>(places: Seq<Place<K>>, hash: spec_fn(K) -> u64) -> bool {
    forall|i: int, steps: int|
        #![trigger places[i], probed(home_of(hash(places[i]->Held_0), places.len() as int), steps, places.len() as int)]
        0 <= i < places.len() && places[i] is Held && 0 <= steps < steps_to(
            home_of(hash(places[i]->Held_0), places.len() as int),
            i,
            places.len() as int,
        ) ==> !(places[probed(
            home_of(hash(places[i]->Held_0), places.len() as int),
            steps,
            places.len() as int,
        )] is Empty)
}

/// True when no key is at two places.
pub open spec fn unique<K>(places: Seq<Place<K>>) -> bool {
    forall|i: int, j: int|
        0 <= i < places.len() && 0 <= j < places.len() && i != j && places[i] is Held && places[j] is Held
            ==> (#[trigger] places[i])->Held_0 != (#[trigger] places[j])->Held_0
}

/// True when the table is one in which searches work.
pub open spec fn probing<K>(places: Seq<Place<K>>, hash: spec_fn(K) -> u64) -> bool {
    places.len() > 0 && chained(places, hash) && unique(places)
}

/// True when a key is somewhere in the table.
pub open spec fn holds<K>(places: Seq<Place<K>>, key: K) -> bool {
    exists|i: int| 0 <= i < places.len() && #[trigger] places[i] == Place::Held(key)
}

/// A search that met neither the key nor an empty place so far.
pub open spec fn unmet<K>(
    places: Seq<Place<K>>,
    hash: spec_fn(K) -> u64,
    key: K,
    steps: int,
) -> bool {
    let capacity = places.len() as int;
    forall|e: int|
        0 <= e < steps ==> {
            let place = #[trigger] places[probed(home_of(hash(key), capacity), e, capacity)];
            place != Place::Held(key) && !(place is Empty)
        }
}

/// A search that ends at an empty place, or has seen every place, without
/// meeting the key shows that the key is absent.
pub proof fn lemma_absent<K>(
    places: Seq<Place<K>>,
    hash: spec_fn(K) -> u64,
    key: K,
    steps: int,
)
    requires
        probing(places, hash),
        0 <= steps <= places.len(),
        unmet(places, hash, key, steps),
        steps < places.len() ==> places[probed(
            home_of(hash(key), places.len() as int),
            steps,
            places.len() as int,
        )] is Empty,
    ensures
        !holds(places, key),
{
    let capacity = places.len() as int;
    let home = home_of(hash(key), capacity);
    if holds(places, key) {
        let i = choose|i: int| 0 <= i < places.len() && #[trigger] places[i] == Place::Held(key);
        lemma_steps(home, i, capacity);
        let d = steps_to(home, i, capacity);
        if d < steps {
            assert(places[probed(home, d, capacity)] != Place::Held(key));
        } else {
            lemma_probed_inside(home, steps, capacity);
            if d > steps {
                assert(places[i]->Held_0 == key);
                assert(!(places[probed(home, steps, capacity)] is Empty));
            }
        }
    }
}

/// Putting an absent key at a place that a search reached before any empty
/// place keeps searches working.
pub proof fn lemma_put<K>(
    places: Seq<Place<K>>,
    hash: spec_fn(K) -> u64,
    key: K,
    steps: int,
)
    requires
        probing(places, hash),
        0 <= steps < places.len(),
        !holds(places, key),
        forall|e: int|
            0 <= e < steps ==> !(#[trigger] places[probed(
                home_of(hash(key), places.len() as int),
                e,
                places.len() as int,
            )] is Empty),
    ensures
        ({
            let place = probed(
                home_of(hash(key), places.len() as int),
                steps,
                places.len() as int,
            );
            probing(places.update(place, Place::Held(key)), hash)
        }),
{
    let capacity = places.len() as int;
    let home = home_of(hash(key), capacity);
    let place = probed(home, steps, capacity);
    lemma_probed_inside(home, steps, capacity);
    let after = places.update(place, Place::Held(key));
    assert forall|i: int, e: int|
        #![trigger after[i], probed(home_of(hash(after[i]->Held_0), capacity), e, capacity)]
        0 <= i < after.len() && after[i] is Held && 0 <= e < steps_to(
            home_of(hash(after[i]->Held_0), capacity),
            i,
            capacity,
        ) implies !(after[probed(home_of(hash(after[i]->Held_0), capacity), e, capacity)] is Empty) by {
        let from = home_of(hash(after[i]->Held_0), capacity);
        lemma_probed_inside(from, e, capacity);
        if i == place {
            lemma_steps(home, place, capacity);
            assert(steps == steps_to(home, place, capacity));
            assert(!(places[probed(home, e, capacity)] is Empty));
        } else {
            assert(places[i] == after[i]);
            assert(!(places[probed(from, e, capacity)] is Empty));
        }
    }
    assert forall|i: int, j: int|
        0 <= i < after.len() && 0 <= j < after.len() && i != j && after[i] is Held && after[j] is Held implies (
    #[trigger] after[i])->Held_0 != (#[trigger] after[j])->Held_0 by {
        if i == place {
            assert(places[j] == after[j]);
            if after[j]->Held_0 == key {
                assert(places[j] == Place::Held(key));
            }
        } else if j == place {
            assert(places[i] == after[i]);
            if after[i]->Held_0 == key {
                assert(places[i] == Place::Held(key));
            }
        } else {
            assert(places[i] == after[i]);
            assert(places[j] == after[j]);
        }
    }
}

/// Giving up a place keeps searches working.
pub proof fn lemma_give_up<K>(places: Seq<Place<K>>, hash: spec_fn(K) -> u64, place: int)
    requires
        probing(places, hash),
        0 <= place < places.len(),
    ensures
        probing(places.update(place, Place::Gone), hash),
{
    let capacity = places.len() as int;
    let after = places.update(place, Place::Gone);
    assert forall|i: int, e: int|
        #![trigger after[i], probed(home_of(hash(after[i]->Held_0), capacity), e, capacity)]
        0 <= i < after.len() && after[i] is Held && 0 <= e < steps_to(
            home_of(hash(after[i]->Held_0), capacity),
            i,
            capacity,
        ) implies !(after[probed(home_of(hash(after[i]->Held_0), capacity), e, capacity)] is Empty) by {
        let from = home_of(hash(after[i]->Held_0), capacity);
        lemma_probed_inside(from, e, capacity);
        assert(places[i] == after[i]);
        assert(!(places[probed(from, e, capacity)] is Empty));
    }
    assert forall|i: int, j: int|
        0 <= i < after.len() && 0 <= j < after.len() && i != j && after[i] is Held && after[j] is Held implies (
    #[trigger] after[i])->Held_0 != (#[trigger] after[j])->Held_0 by {
        assert(places[i] == after[i]);
        assert(places[j] == after[j]);
    }
}

/// True when the way from a key's home to its place meets neither an empty place
/// nor the key.
pub open spec fn reachable<K>(places: Seq<Place<K>>, hash: spec_fn(K) -> u64, i: int) -> bool {
    let capacity = places.len() as int;
    places[i] is Held ==> unmet(
        places,
        hash,
        places[i]->Held_0,
        steps_to(home_of(hash(places[i]->Held_0), capacity), i, capacity),
    )
}

/// A table in which every key is reachable is one in which searches work.
pub proof fn lemma_reachable<K>(places: Seq<Place<K>>, hash: spec_fn(K) -> u64)
    requires
        places.len() > 0,
        forall|i: int| 0 <= i < places.len() ==> #[trigger] reachable(places, hash, i),
    ensures
        probing(places, hash),
{
    let capacity = places.len() as int;
    assert forall|i: int, steps: int|
        #![trigger places[i], probed(home_of(hash(places[i]->Held_0), capacity), steps, capacity)]
        0 <= i < places.len() && places[i] is Held && 0 <= steps < steps_to(
            home_of(hash(places[i]->Held_0), capacity),
            i,
            capacity,
        ) implies !(places[probed(home_of(hash(places[i]->Held_0), capacity), steps, capacity)] is Empty) by {
        assert(reachable(places, hash, i));
    }
    assert forall|i: int, j: int|
        0 <= i < places.len() && 0 <= j < places.len() && i != j && places[i] is Held && places[j] is Held implies (
    #[trigger] places[i])->Held_0 != (#[trigger] places[j])->Held_0 by {
        if places[i]->Held_0 == places[j]->Held_0 {
            let home = home_of(hash(places[i]->Held_0), capacity);
            lemma_steps(home, i, capacity);
            lemma_steps(home, j, capacity);
            assert(reachable(places, hash, i));
            assert(reachable(places, hash, j));
            let a = steps_to(home, i, capacity);
            let b = steps_to(home, j, capacity);
            if a < b {
                assert(places[probed(home, a, capacity)] != Place::Held(places[j]->Held_0));
            } else {
                assert(a != b);
                assert(places[probed(home, b, capacity)] != Place::Held(places[i]->Held_0));
            }
        }
    }
}

/// The place that a probe of a hash reaches after `steps`.
pub fn probe_index(hash: u64, steps: usize, capacity: usize) -> (place: usize)
    requires
        0 < capacity <= 0x1_0000,
        steps < capacity,
    ensures
        place == probed(home_of(hash, capacity as int), steps as int, capacity as int),
        place < capacity,
{
    let home: u64 = hash % (capacity as u64);
    let reached: u64 = (home + steps as u64) % (capacity as u64);
    reached as usize
}

} // verus!
