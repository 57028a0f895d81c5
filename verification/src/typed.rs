//! Types with a stable wire identity across the fleet.
use crate::ring::{RingSpec, RingTopology};
use vstd::prelude::*;

verus! {

/// Marker for a type that has a stable wire identity across the fleet.
///
/// The kind and the ring geometry are part of the cross-process wire contract:
/// reusing a kind with another geometry is an error.
pub trait OrbitTyped: Clone + Send + Sync + 'static {
    /// Stable wire identifier.
    const KIND: u8;

    /// Slots retained by each lane of this kind's ring.
    const RING_CAPACITY: usize;

    /// Payload bytes stored inline in each slot of this kind's ring.
    const RING_PAYLOAD_CAPACITY: usize;

    /// How writers own the lanes of this kind's ring.
    const RING_TOPOLOGY: RingTopology;
}

/// The ring geometry that `T` declares, as a specification.
pub open spec fn declared<T: OrbitTyped>() -> RingSpec {
    RingSpec {
        capacity: T::RING_CAPACITY,
        payload_capacity: T::RING_PAYLOAD_CAPACITY,
        topology: T::RING_TOPOLOGY,
    }
}

/// The ring geometry that `T` declares.
pub fn ring_spec<T: OrbitTyped>() -> (spec: RingSpec)
    ensures
        spec == declared::<T>(),
{
    RingSpec {
        capacity: T::RING_CAPACITY,
        payload_capacity: T::RING_PAYLOAD_CAPACITY,
        topology: T::RING_TOPOLOGY,
    }
}

} // verus!
