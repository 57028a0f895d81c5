//! The two rings of a cache.
use std::marker::PhantomData;
use vstd::arithmetic::power2::is_pow2;
use vstd::prelude::*;

use crate::cache::error::Error;
use crate::cache::protocol::MIN_MUTATION_HEADER_LEN;
use crate::numbers::is_power_of_two;
use crate::ring::{RingSpec, RingTopology};
use crate::typed::{declared, OrbitTyped};

verus! {

pub const CACHE_MUTATION_RING_KIND: u8 = 200;

pub const CACHE_PAYLOAD_RING_KIND: u8 = 201;

pub const CACHE_MUTATION_RING_CAPACITY: usize = 1_024;

pub const CACHE_MUTATION_RING_PAYLOAD_CAPACITY: usize = 1_024;

pub const CACHE_PAYLOAD_RING_CAPACITY: usize = 1_024;

pub const CACHE_PAYLOAD_RING_PAYLOAD_CAPACITY: usize = 4_096;

/// The rings used by one cache domain. Kinds and geometries are wire
/// contracts: every peer of a fleet must use the same values.
pub trait CacheLayout: Send + Sync + 'static {
    const MUTATION_RING_KIND: u8;

    const MUTATION_RING_CAPACITY: usize;

    const MUTATION_RING_PAYLOAD_CAPACITY: usize;

    const MUTATION_RING_TOPOLOGY: RingTopology;

    const PAYLOAD_RING_KIND: u8;

    const PAYLOAD_RING_CAPACITY: usize;

    const PAYLOAD_RING_PAYLOAD_CAPACITY: usize;

    const PAYLOAD_RING_TOPOLOGY: RingTopology;
}

/// The rings that a cache uses unless it is told otherwise.
#[derive(Clone, Copy, Debug)]
pub struct DefaultCacheLayout;

impl CacheLayout for DefaultCacheLayout {
    const MUTATION_RING_KIND: u8 = CACHE_MUTATION_RING_KIND;

    const MUTATION_RING_CAPACITY: usize = CACHE_MUTATION_RING_CAPACITY;

    const MUTATION_RING_PAYLOAD_CAPACITY: usize = CACHE_MUTATION_RING_PAYLOAD_CAPACITY;

    const MUTATION_RING_TOPOLOGY: RingTopology = RingTopology::PerNode;

    const PAYLOAD_RING_KIND: u8 = CACHE_PAYLOAD_RING_KIND;

    const PAYLOAD_RING_CAPACITY: usize = CACHE_PAYLOAD_RING_CAPACITY;

    const PAYLOAD_RING_PAYLOAD_CAPACITY: usize = CACHE_PAYLOAD_RING_PAYLOAD_CAPACITY;

    const PAYLOAD_RING_TOPOLOGY: RingTopology = RingTopology::PerNode;
}

/// What travels on a layout's mutation ring.
pub struct MutationRecord<L>(PhantomData<L>);

impl<L> Clone for MutationRecord<L> {
    fn clone(&self) -> MutationRecord<L> {
        MutationRecord(PhantomData)
    }
}

impl<L: CacheLayout> OrbitTyped for MutationRecord<L> {
    const KIND: u8 = L::MUTATION_RING_KIND;

    const RING_CAPACITY: usize = L::MUTATION_RING_CAPACITY;

    const RING_PAYLOAD_CAPACITY: usize = L::MUTATION_RING_PAYLOAD_CAPACITY;

    const RING_TOPOLOGY: RingTopology = RingTopology::PerNode;
}

/// What travels on a layout's payload ring.
pub struct PayloadRecord<L>(PhantomData<L>);

impl<L> Clone for PayloadRecord<L> {
    fn clone(&self) -> PayloadRecord<L> {
        PayloadRecord(PhantomData)
    }
}

impl<L: CacheLayout> OrbitTyped for PayloadRecord<L> {
    const KIND: u8 = L::PAYLOAD_RING_KIND;

    const RING_CAPACITY: usize = L::PAYLOAD_RING_CAPACITY;

    const RING_PAYLOAD_CAPACITY: usize = L::PAYLOAD_RING_PAYLOAD_CAPACITY;

    const RING_TOPOLOGY: RingTopology = RingTopology::PerNode;
}

/// The rings that the records of a layout declare.
pub proof fn lemma_records<L: CacheLayout>()
    ensures
        <MutationRecord<L> as OrbitTyped>::KIND == L::MUTATION_RING_KIND,
        declared::<MutationRecord<L>>() == (RingSpec {
            capacity: L::MUTATION_RING_CAPACITY,
            payload_capacity: L::MUTATION_RING_PAYLOAD_CAPACITY,
            topology: RingTopology::PerNode,
        }),
        <PayloadRecord<L> as OrbitTyped>::KIND == L::PAYLOAD_RING_KIND,
        declared::<PayloadRecord<L>>() == (RingSpec {
            capacity: L::PAYLOAD_RING_CAPACITY,
            payload_capacity: L::PAYLOAD_RING_PAYLOAD_CAPACITY,
            topology: RingTopology::PerNode,
        }),
{
}

/// The default layout is usable.
pub proof fn lemma_default_layout()
    ensures
        layout_fault::<DefaultCacheLayout>() is None,
        DefaultCacheLayout::MUTATION_RING_KIND == CACHE_MUTATION_RING_KIND,
        DefaultCacheLayout::PAYLOAD_RING_KIND == CACHE_PAYLOAD_RING_KIND,
        DefaultCacheLayout::MUTATION_RING_CAPACITY == CACHE_MUTATION_RING_CAPACITY,
        DefaultCacheLayout::MUTATION_RING_PAYLOAD_CAPACITY == CACHE_MUTATION_RING_PAYLOAD_CAPACITY,
        DefaultCacheLayout::PAYLOAD_RING_CAPACITY == CACHE_PAYLOAD_RING_CAPACITY,
        DefaultCacheLayout::PAYLOAD_RING_PAYLOAD_CAPACITY == CACHE_PAYLOAD_RING_PAYLOAD_CAPACITY,
        declared::<MutationRecord<DefaultCacheLayout>>().valid(),
        declared::<PayloadRecord<DefaultCacheLayout>>().valid(),
{
    assert(is_pow2(1_024)) by {
        reveal_with_fuel(is_pow2, 12);
    }
}

/// The first reason why a layout cannot be used.
pub open spec fn layout_fault<L: CacheLayout>() -> Option<Seq<char>> {
    if L::MUTATION_RING_KIND == L::PAYLOAD_RING_KIND {
        Some("mutation and payload ring kinds must differ"@)
    } else if L::MUTATION_RING_TOPOLOGY != RingTopology::PerNode || L::PAYLOAD_RING_TOPOLOGY
        != RingTopology::PerNode {
        Some("mutation and payload rings must use per-node lanes"@)
    } else if L::MUTATION_RING_CAPACITY == 0 || L::PAYLOAD_RING_CAPACITY == 0 {
        Some("ring capacities must be greater than zero"@)
    } else if !is_pow2(L::MUTATION_RING_CAPACITY as int) || !is_pow2(
        L::PAYLOAD_RING_CAPACITY as int,
    ) {
        Some("ring capacities must be powers of two"@)
    } else if L::PAYLOAD_RING_CAPACITY > u32::MAX {
        Some("payload ring capacity must fit the chunk-count field"@)
    } else if L::MUTATION_RING_PAYLOAD_CAPACITY < MIN_MUTATION_HEADER_LEN {
        Some("mutation payload capacity cannot fit the protocol header"@)
    } else if L::PAYLOAD_RING_PAYLOAD_CAPACITY == 0 {
        Some("payload slots must hold at least one byte"@)
    } else {
        None
    }
}

/// Checks that a layout can be used.
pub fn validate<L: CacheLayout>() -> (valid: Result<(), Error>)
    ensures
        match layout_fault::<L>() {
            Some(fault) => valid matches Err(Error::InvalidLayout(message)) && message@ == fault,
            None => valid is Ok,
        },
{
    if L::MUTATION_RING_KIND == L::PAYLOAD_RING_KIND {
        return Err(Error::InvalidLayout("mutation and payload ring kinds must differ"));
    }
    if L::MUTATION_RING_TOPOLOGY != RingTopology::PerNode || L::PAYLOAD_RING_TOPOLOGY
        != RingTopology::PerNode {
        return Err(Error::InvalidLayout("mutation and payload rings must use per-node lanes"));
    }
    if L::MUTATION_RING_CAPACITY == 0 || L::PAYLOAD_RING_CAPACITY == 0 {
        return Err(Error::InvalidLayout("ring capacities must be greater than zero"));
    }
    if !is_power_of_two(L::MUTATION_RING_CAPACITY) || !is_power_of_two(L::PAYLOAD_RING_CAPACITY) {
        return Err(Error::InvalidLayout("ring capacities must be powers of two"));
    }
    if L::PAYLOAD_RING_CAPACITY > 0xffff_ffff {
        return Err(Error::InvalidLayout("payload ring capacity must fit the chunk-count field"));
    }
    if L::MUTATION_RING_PAYLOAD_CAPACITY < MIN_MUTATION_HEADER_LEN {
        return Err(
            Error::InvalidLayout("mutation payload capacity cannot fit the protocol header"),
        );
    }
    if L::PAYLOAD_RING_PAYLOAD_CAPACITY == 0 {
        return Err(Error::InvalidLayout("payload slots must hold at least one byte"));
    }
    Ok(())
}

} // verus!
