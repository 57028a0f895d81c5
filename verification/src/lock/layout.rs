//! The surfaces of a lock domain.
use std::marker::PhantomData;
use vstd::arithmetic::power2::is_pow2;
use vstd::prelude::*;

use crate::lock::error::Error;
use crate::lock::protocol::EVENT_HEADER_LEN;
use crate::numbers::is_power_of_two;
use crate::ring::{RingSpec, RingTopology};
use crate::typed::{declared, OrbitTyped};

verus! {

pub const LOCK_STATE_KIND: u8 = 228;

pub const LOCK_EVENT_RING_KIND: u8 = 229;

pub const LOCK_EVENT_RING_CAPACITY: usize = 1_024;

pub const LOCK_EVENT_RING_PAYLOAD_CAPACITY: usize = 1_024;

/// The state table and the event ring used by one lock domain.
pub trait LockLayout: Send + Sync + 'static {
    /// Kind that names the state table and mints lock ids.
    const STATE_KIND: u8;

    /// Kind of the transition ring.
    const EVENT_RING_KIND: u8;

    const EVENT_RING_CAPACITY: usize;

    const EVENT_RING_PAYLOAD_CAPACITY: usize;

    const EVENT_RING_TOPOLOGY: RingTopology;
}

/// The surfaces that a lock uses unless it is told otherwise.
#[derive(Clone, Copy, Debug)]
pub struct DefaultLockLayout;

impl LockLayout for DefaultLockLayout {
    const STATE_KIND: u8 = LOCK_STATE_KIND;

    const EVENT_RING_KIND: u8 = LOCK_EVENT_RING_KIND;

    const EVENT_RING_CAPACITY: usize = LOCK_EVENT_RING_CAPACITY;

    const EVENT_RING_PAYLOAD_CAPACITY: usize = LOCK_EVENT_RING_PAYLOAD_CAPACITY;

    const EVENT_RING_TOPOLOGY: RingTopology = RingTopology::PerNode;
}

/// What travels on a layout's event ring.
pub struct LockEventRecord<L>(PhantomData<L>);

impl<L> Clone for LockEventRecord<L> {
    fn clone(&self) -> LockEventRecord<L> {
        LockEventRecord(PhantomData)
    }
}

impl<L: LockLayout> OrbitTyped for LockEventRecord<L> {
    const KIND: u8 = L::EVENT_RING_KIND;

    const RING_CAPACITY: usize = L::EVENT_RING_CAPACITY;

    const RING_PAYLOAD_CAPACITY: usize = L::EVENT_RING_PAYLOAD_CAPACITY;

    const RING_TOPOLOGY: RingTopology = RingTopology::PerNode;
}

/// The ring that a layout's events declare.
pub proof fn lemma_event_record<L: LockLayout>()
    ensures
        <LockEventRecord<L> as OrbitTyped>::KIND == L::EVENT_RING_KIND,
        declared::<LockEventRecord<L>>() == (RingSpec {
            capacity: L::EVENT_RING_CAPACITY,
            payload_capacity: L::EVENT_RING_PAYLOAD_CAPACITY,
            topology: RingTopology::PerNode,
        }),
{
}

/// The default layout is usable.
pub proof fn lemma_default_layout()
    ensures
        layout_fault::<DefaultLockLayout>() is None,
        DefaultLockLayout::STATE_KIND == LOCK_STATE_KIND,
        DefaultLockLayout::EVENT_RING_KIND == LOCK_EVENT_RING_KIND,
        declared::<LockEventRecord<DefaultLockLayout>>().valid(),
{
    assert(is_pow2(1_024)) by {
        reveal_with_fuel(is_pow2, 12);
    }
}

/// The first reason why a layout cannot be used.
pub open spec fn layout_fault<L: LockLayout>() -> Option<Seq<char>> {
    if L::STATE_KIND == L::EVENT_RING_KIND {
        Some("state and event-ring kinds must differ"@)
    } else if L::EVENT_RING_TOPOLOGY != RingTopology::PerNode {
        Some("the lock event ring must use per-node lanes"@)
    } else if L::EVENT_RING_CAPACITY == 0 || !is_pow2(L::EVENT_RING_CAPACITY as int) {
        Some("event-ring capacity must be a non-zero power of two"@)
    } else if L::EVENT_RING_PAYLOAD_CAPACITY < EVENT_HEADER_LEN + 2 {
        Some("event-ring payload cannot fit a lock event"@)
    } else {
        None
    }
}

/// Checks that a layout can be used.
pub fn validate<L: LockLayout>() -> (valid: Result<(), Error>)
    ensures
        match layout_fault::<L>() {
            Some(fault) => valid matches Err(Error::InvalidLayout(message)) && message@ == fault,
            None => valid is Ok,
        },
{
    if L::STATE_KIND == L::EVENT_RING_KIND {
        return Err(Error::InvalidLayout("state and event-ring kinds must differ"));
    }
    if L::EVENT_RING_TOPOLOGY != RingTopology::PerNode {
        return Err(Error::InvalidLayout("the lock event ring must use per-node lanes"));
    }
    if L::EVENT_RING_CAPACITY == 0 || !is_power_of_two(L::EVENT_RING_CAPACITY) {
        return Err(Error::InvalidLayout("event-ring capacity must be a non-zero power of two"));
    }
    if L::EVENT_RING_PAYLOAD_CAPACITY < EVENT_HEADER_LEN + 2 {
        return Err(Error::InvalidLayout("event-ring payload cannot fit a lock event"));
    }
    Ok(())
}

/// Which layouts can be used.
pub proof fn law_layouts_are_accepted_where_they_work<L: LockLayout>()
    ensures
        layout_fault::<L>() is None <==> {
            &&& L::STATE_KIND != L::EVENT_RING_KIND
            &&& L::EVENT_RING_TOPOLOGY == RingTopology::PerNode
            &&& L::EVENT_RING_CAPACITY > 0 && is_pow2(L::EVENT_RING_CAPACITY as int)
            &&& L::EVENT_RING_PAYLOAD_CAPACITY >= 37
        },
{
}

} // verus!
