//! The rings of one fleet, one per kind, created on demand.
use dashmap::DashMap;
use vstd::prelude::*;

use crate::kinds::{new_table, table, value_of, value_or_insert};
use crate::ring::{Ring, RingView};
use crate::typed::{declared, OrbitTyped};

verus! {

/// One ring per kind. The table gives each kind's place in the list of rings.
pub struct RingRegistry {
    fleet_capacity: u16,
    places: DashMap<u8, u64>,
    rings: Vec<Ring>,
}

impl View for RingRegistry {
    type V = Map<u8, RingView>;

    closed spec fn view(&self) -> Map<u8, RingView> {
        placed(table(self.places), self.rings@)
    }
}

/// The ring that the table gives each kind.
spec fn placed(places: Map<u8, u64>, rings: Seq<Ring>) -> Map<u8, RingView> {
    Map::new(|kind: u8| places.contains_key(kind), |kind: u8| rings[places[kind] as int]@)
}

/// True when the table gives each ring's kind the ring's place, and no other
/// place is in it.
spec fn places_wf(places: Map<u8, u64>, rings: Seq<Ring>) -> bool {
    &&& forall|kind: u8| #[trigger]
        places.contains_key(kind) ==> places[kind] < rings.len() && rings[places[kind] as int]@.kind
            == kind
    &&& rings.len() <= u64::MAX
}

proof fn lemma_replaced(
    places: Map<u8, u64>,
    rings: Seq<Ring>,
    kind: u8,
    ring: Ring,
    fleet_capacity: u16,
)
    requires
        places_wf(places, rings),
        rings_wf(placed(places, rings), fleet_capacity),
        places.contains_key(kind),
        ring_fits(ring@, kind, fleet_capacity),
    ensures
        places_wf(places, rings.update(places[kind] as int, ring)),
        rings_wf(placed(places, rings.update(places[kind] as int, ring)), fleet_capacity),
{
    let after = rings.update(places[kind] as int, ring);
    assert forall|other: u8| #[trigger] places.contains_key(other) implies after[places[other] as int]@.kind
        == other && ring_fits(after[places[other] as int]@, other, fleet_capacity) by {
        assert(placed(places, rings).contains_key(other));
        assert(ring_fits(placed(places, rings)[other], other, fleet_capacity));
    }
}

/// The ring that `T` has in a fleet: the registered one, or the fresh one that
/// its first use creates.
pub open spec fn ring_for<T: OrbitTyped>(
    rings: Map<u8, RingView>,
    fleet_capacity: u16,
) -> RingView {
    if rings.contains_key(T::KIND) {
        rings[T::KIND]
    } else {
        RingView::blank(
            T::KIND,
            declared::<T>(),
            declared::<T>().lanes_for(fleet_capacity) as nat,
        )
    }
}

/// True when `T` can be used with these rings: its geometry is valid, and no
/// other geometry was registered under its kind.
pub open spec fn usable<T: OrbitTyped>(rings: Map<u8, RingView>) -> bool {
    &&& declared::<T>().valid()
    &&& rings.contains_key(T::KIND) ==> rings[T::KIND].spec == declared::<T>()
}

/// True when every ring is well formed, carries its kind, and has the lanes
/// that a fleet of this capacity needs.
pub open spec fn rings_wf(rings: Map<u8, RingView>, fleet_capacity: u16) -> bool {
    forall|kind: u8| #[trigger]
        rings.contains_key(kind) ==> ring_fits(rings[kind], kind, fleet_capacity)
}

/// True when a ring is well formed, carries the kind, and has the lanes that a
/// fleet of this capacity needs.
pub open spec fn ring_fits(ring: RingView, kind: u8, fleet_capacity: u16) -> bool {
    &&& ring.wf()
    &&& ring.kind == kind
    &&& ring.lanes.len() == ring.spec.lanes_for(fleet_capacity)
}

impl RingRegistry {
    /// The fleet's capacity, as a specification.
    pub closed spec fn capacity(&self) -> u16 {
        self.fleet_capacity
    }

    /// The table points into the list of rings, and the rings are well formed.
    pub closed spec fn wf(&self) -> bool {
        &&& self.fleet_capacity > 0
        &&& places_wf(table(self.places), self.rings@)
        &&& rings_wf(self@, self.fleet_capacity)
    }

    /// What well-formedness says of the rings.
    pub proof fn lemma_wf(&self)
        requires
            self.wf(),
        ensures
            rings_wf(self@, self.capacity()),
            self.capacity() > 0,
    {
    }

    /// A registry without rings.
    pub fn new(fleet_capacity: u16) -> (registry: RingRegistry)
        requires
            fleet_capacity > 0,
        ensures
            registry.wf(),
            registry.capacity() == fleet_capacity,
            registry@ == Map::<u8, RingView>::empty(),
    {
        let registry = RingRegistry { fleet_capacity, places: new_table(), rings: Vec::new() };
        assert(registry@ =~= Map::<u8, RingView>::empty());
        registry
    }

    /// The registered ring of a kind.
    pub fn lookup(&self, kind: u8) -> (ring: Option<&Ring>)
        requires
            self.wf(),
        ensures
            match ring {
                Some(ring) => self@.contains_key(kind) && ring@ == self@[kind] && ring_fits(
                    ring@,
                    kind,
                    self.capacity(),
                ),
                None => !self@.contains_key(kind),
            },
    {
        match value_of(&self.places, kind) {
            Some(place) => {
                assert(self@.contains_key(kind));
                assert(place < self.rings.len());
                Some(&self.rings[place as usize])
            },
            None => None,
        }
    }

    /// The ring of `T`, created on its first use.
    pub fn get_or_create<T: OrbitTyped>(&mut self) -> (ring: &mut Ring)
        requires
            old(self).wf(),
            usable::<T>(old(self)@),
        ensures
            ring@ == ring_for::<T>(old(self)@, old(self).capacity()),
            ring_fits(ring@, T::KIND, old(self).capacity()),
            final(self)@ == old(self)@.insert(T::KIND, final(ring)@),
            final(self).capacity() == old(self).capacity(),
            ring_fits(final(ring)@, T::KIND, old(self).capacity()) ==> final(self).wf(),
    {
        let ghost before = self@;
        let fresh: u64 = self.rings.len() as u64;
        let place: u64 = value_or_insert(&mut self.places, T::KIND, fresh);
        if !(place < fresh) {
            assert(!before.contains_key(T::KIND));
            self.rings.push(Ring::new_for_fleet::<T>(self.fleet_capacity));
        } else {
            assert(before.contains_key(T::KIND));
        }
        let ghost kinds = table(self.places);
        let ghost rings = self.rings@;
        let ghost fleet_capacity = self.fleet_capacity;
        proof {
            assert forall|kind: u8| #[trigger] kinds.contains_key(kind) implies kinds[kind]
                < rings.len() && rings[kinds[kind] as int]@.kind == kind && ring_fits(
                rings[kinds[kind] as int]@,
                kind,
                fleet_capacity,
            ) && (kind != T::KIND ==> before.contains_key(kind) && rings[kinds[kind] as int]@
                == before[kind]) by {
                if before.contains_key(kind) {
                    assert(ring_fits(before[kind], kind, fleet_capacity));
                }
            }
            assert(place < self.rings.len());
            assert forall|ring: Ring| #[trigger]
                ring_fits(ring@, T::KIND, fleet_capacity) implies places_wf(
                kinds,
                rings.update(place as int, ring),
            ) && rings_wf(placed(kinds, rings.update(place as int, ring)), fleet_capacity) by {
                lemma_replaced(kinds, rings, T::KIND, ring, fleet_capacity);
            }
            assert forall|ring: Ring| #[trigger]
                placed(kinds, rings.update(place as int, ring)) == before.insert(T::KIND, ring@) by {
                assert(placed(kinds, rings.update(place as int, ring)) =~= before.insert(
                    T::KIND,
                    ring@,
                ));
            }
        }
        let ring: &mut Ring = &mut self.rings[place as usize];
        ring
    }
}

} // verus!
