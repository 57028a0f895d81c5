//! The shared-memory rings of one fleet, one per kind, opened on demand.
use dashmap::DashMap;
use vstd::prelude::*;

use crate::kinds::{new_table, table, value_of, value_or_insert};
use crate::ring::shm::layout::ShmError;
use crate::ring::shm::{is_geometry, opened, ShmRing, ShmView};
use crate::ring::RingSpec;
use crate::typed::{declared, ring_spec, OrbitTyped};

verus! {

/// One ring per kind. The table gives each kind's place in the list of rings.
pub struct ShmRingRegistry {
    fleet_capacity: u16,
    places: DashMap<u8, u64>,
    rings: Vec<ShmRing>,
}

impl View for ShmRingRegistry {
    type V = Map<u8, ShmView>;

    closed spec fn view(&self) -> Map<u8, ShmView> {
        placed(table(self.places), self.rings@)
    }
}

/// The ring that the table gives each kind.
spec fn placed(places: Map<u8, u64>, rings: Seq<ShmRing>) -> Map<u8, ShmView> {
    Map::new(|kind: u8| places.contains_key(kind), |kind: u8| rings[places[kind] as int]@)
}

/// True when every ring carries its kind, and has the lanes that a fleet of this
/// capacity needs.
pub open spec fn shm_rings_wf(rings: Map<u8, ShmView>, fleet_capacity: u16) -> bool {
    forall|kind: u8| #[trigger]
        rings.contains_key(kind) ==> shm_ring_fits(rings[kind], kind, fleet_capacity)
}

/// True when a ring carries the kind, and has the lanes that a fleet of this
/// capacity needs.
pub open spec fn shm_ring_fits(ring: ShmView, kind: u8, fleet_capacity: u16) -> bool {
    &&& ring.shaped()
    &&& is_geometry(ring.geometry, kind, ring.geometry.spec, fleet_capacity)
}

/// What asking for the ring of a kind does to the registered ones.
pub open spec fn registered(
    before: Map<u8, ShmView>,
    fleet_capacity: u16,
    kind: u8,
    spec: RingSpec,
    existing: Option<Vec<u8>>,
    after: Map<u8, ShmView>,
    result: Result<(), ShmError>,
) -> bool {
    if before.contains_key(kind) {
        let found = before[kind].geometry.spec;
        &&& after == before
        &&& if found == spec {
            result is Ok
        } else {
            result == Err::<(), ShmError>(
                ShmError::SpecReused { kind, requested: spec, existing: found },
            )
        }
    } else {
        exists|ring: Result<ShmRing, ShmError>| #[trigger]
            opened(kind, spec, fleet_capacity, existing, ring) && match ring {
                Ok(ring) => result is Ok && after == before.insert(kind, ring@),
                Err(error) => result == Err::<(), ShmError>(error) && after == before,
            }
    }
}

/// Checks that a kind is not used again with another geometry.
pub fn check_reuse(kind: u8, requested: RingSpec, existing: RingSpec) -> (checked: Result<
    (),
    ShmError,
>)
    ensures
        checked == if existing == requested {
            Ok::<(), ShmError>(())
        } else {
            Err(ShmError::SpecReused { kind, requested, existing })
        },
{
    if existing == requested {
        Ok(())
    } else {
        Err(ShmError::SpecReused { kind, requested, existing })
    }
}

impl ShmRingRegistry {
    /// The fleet's capacity, as a specification.
    pub closed spec fn capacity(&self) -> u16 {
        self.fleet_capacity
    }

    /// The table points into the list of rings, and the rings are well formed.
    pub closed spec fn wf(&self) -> bool {
        &&& forall|kind: u8| #[trigger]
            table(self.places).contains_key(kind) ==> table(self.places)[kind] < self.rings@.len()
        &&& forall|i: int| 0 <= i < self.rings@.len() ==> (#[trigger] self.rings@[i]).wf()
        &&& forall|kind: u8, other: u8|
            kind != other && #[trigger] table(self.places).contains_key(kind) && #[trigger] table(
                self.places,
            ).contains_key(other) ==> table(self.places)[kind] != table(self.places)[other]
        &&& shm_rings_wf(self@, self.fleet_capacity)
    }

    /// What well-formedness says of the rings.
    pub proof fn lemma_wf(&self)
        requires
            self.wf(),
        ensures
            shm_rings_wf(self@, self.capacity()),
    {
    }

    /// A registry without rings.
    pub fn new(fleet_capacity: u16) -> (registry: ShmRingRegistry)
        ensures
            registry.wf(),
            registry.capacity() == fleet_capacity,
            registry@ == Map::<u8, ShmView>::empty(),
    {
        let registry = ShmRingRegistry { fleet_capacity, places: new_table(), rings: Vec::new() };
        assert(registry@ =~= Map::<u8, ShmView>::empty());
        registry
    }

    /// Makes sure that the ring of `T` is registered: where it is not yet, it is
    /// opened over the segment that exists, or over a fresh one.
    pub fn get_or_create_for<T: OrbitTyped>(
        &mut self,
        existing: Option<Vec<u8>>,
    ) -> (result: Result<(), ShmError>)
        requires
            old(self).wf(),
        ensures
            final(self).wf(),
            final(self).capacity() == old(self).capacity(),
            registered(
                old(self)@,
                old(self).capacity(),
                T::KIND,
                declared::<T>(),
                existing,
                final(self)@,
                result,
            ),
    {
        let ghost before = self@;
        match value_of(&self.places, T::KIND) {
            Some(place) => {
                assert(before.contains_key(T::KIND));
                assert(place < self.rings.len());
                check_reuse(T::KIND, ring_spec::<T>(), self.rings[place as usize].spec())
            },
            None => {
                assert(!before.contains_key(T::KIND));
                let ring = ShmRing::open_or_create_for_fleet(
                    T::KIND,
                    ring_spec::<T>(),
                    self.fleet_capacity,
                    existing,
                );
                match ring {
                    Err(error) => Err(error),
                    Ok(ring) => {
                        let ghost opened_ring = ring;
                        let ghost places = table(self.places);
                        let ghost rings = self.rings@;
                        assert(ring.wf());
                        let fresh: u64 = self.rings.len() as u64;
                        self.rings.push(ring);
                        let place: u64 = value_or_insert(&mut self.places, T::KIND, fresh);
                        proof {
                            assert(opened(
                                T::KIND,
                                declared::<T>(),
                                self.fleet_capacity,
                                existing,
                                Ok(opened_ring),
                            ));
                            assert(place == rings.len());
                            assert forall|kind: u8| #[trigger]
                                table(self.places).contains_key(kind) implies table(
                                self.places,
                            )[kind] < self.rings@.len() by {
                                if kind != T::KIND {
                                    assert(places.contains_key(kind));
                                }
                            }
                            assert(self@ =~= before.insert(T::KIND, opened_ring@));
                            opened_ring.lemma_shape();
                        }
                        Ok(())
                    },
                }
            },
        }
    }

    /// The registered ring of a kind.
    pub fn lookup(&self, kind: u8) -> (ring: Option<&ShmRing>)
        requires
            self.wf(),
        ensures
            match ring {
                Some(ring) => self@.contains_key(kind) && ring@ == self@[kind] && ring.wf(),
                None => !self@.contains_key(kind),
            },
    {
        match value_of(&self.places, kind) {
            Some(place) => {
                assert(self@.contains_key(kind));
                assert(place < self.rings.len());
                Some(&self.rings[place as usize])
            },
            None => None,
        }
    }

    /// The registered ring of a kind, to be written.
    pub fn ring_mut(&mut self, kind: u8) -> (ring: &mut ShmRing)
        requires
            old(self).wf(),
            old(self)@.contains_key(kind),
        ensures
            ring@ == old(self)@[kind],
            ring.wf(),
            final(self)@ == old(self)@.insert(kind, final(ring)@),
            final(self).capacity() == old(self).capacity(),
            final(ring).wf() && final(ring)@.geometry == ring@.geometry ==> final(self).wf(),
    {
        let ghost before = self@;
        let ghost places = table(self.places);
        let ghost rings = self.rings@;
        match value_of(&self.places, kind) {
            Some(place) => {
                assert(place < self.rings.len());
                proof {
                    assert forall|ring: ShmRing| #[trigger]
                        placed(places, rings.update(place as int, ring)) == before.insert(
                            kind,
                            ring@,
                        ) by {
                        assert forall|other: u8| #[trigger]
                            places.contains_key(other) && other != kind implies rings.update(
                            place as int,
                            ring,
                        )[places[other] as int]@ == before[other] by {}
                        assert(placed(places, rings.update(place as int, ring)) =~= before.insert(
                            kind,
                            ring@,
                        ));
                    }
                    assert forall|ring: ShmRing|
                        ring.wf() && ring@.geometry == before[kind].geometry implies shm_rings_wf(
                        #[trigger] before.insert(kind, ring@),
                        self.fleet_capacity,
                    ) by {
                        ring.lemma_shape();
                        let after = before.insert(kind, ring@);
                        assert forall|other: u8| #[trigger] after.contains_key(other) implies
                            shm_ring_fits(after[other], other, self.fleet_capacity) by {
                            assert(before.contains_key(other));
                        }
                    }
                }
                &mut self.rings[place as usize]
            },
            None => vstd::pervasive::unreached(),
        }
    }
}

/// A kind stands for one ring: under a kind that is taken, the same ring is found again, and
/// another one is refused. Rings of other kinds stay as they are.
pub proof fn law_kinds_are_not_reused(
    before: Map<u8, ShmView>,
    fleet_capacity: u16,
    kind: u8,
    spec: RingSpec,
    existing: Option<Vec<u8>>,
    after: Map<u8, ShmView>,
    result: Result<(), ShmError>,
    other: u8,
)
    requires
        registered(before, fleet_capacity, kind, spec, existing, after, result),
    ensures
        before.contains_key(kind) ==> after == before,
        before.contains_key(kind) ==> (result is Ok <==> before[kind].geometry.spec == spec),
        before.contains_key(kind) && before[kind].geometry.spec != spec ==> result == Err::<
            (),
            ShmError,
        >(ShmError::SpecReused { kind, requested: spec, existing: before[kind].geometry.spec }),
        result is Ok ==> after.contains_key(kind) && after[kind].geometry.spec == spec,
        other != kind && before.contains_key(other) ==> after.contains_key(other) && after[other]
            == before[other],
        result is Err ==> after == before,
{
}

} // verus!
