//! The ring of an event bus.
use std::marker::PhantomData;
use vstd::arithmetic::power2::is_pow2;
use vstd::prelude::*;

use crate::events::error::Error;
use crate::events::protocol::HEADER_LEN;
use crate::numbers::is_power_of_two;
use crate::ring::{RingSpec, RingTopology};
use crate::typed::{declared, OrbitTyped};

verus! {

pub const EVENT_RING_KIND: u8 = 220;

pub const EVENT_RING_CAPACITY: usize = 1_024;

pub const EVENT_RING_PAYLOAD_CAPACITY: usize = 512;

/// The largest event frame of the default ring.
pub const EVENT_PAYLOAD_MAX: usize = EVENT_RING_PAYLOAD_CAPACITY;

/// The ring that one event bus publishes into and polls from.
pub trait EventLayout: Send + Sync + 'static {
    /// Kind of the event ring.
    const RING_KIND: u8;

    const RING_CAPACITY: usize;

    const RING_PAYLOAD_CAPACITY: usize;

    const RING_TOPOLOGY: RingTopology;
}

/// The fleet's default event ring.
#[derive(Clone, Copy, Debug)]
pub struct DefaultEventLayout;

impl Default for DefaultEventLayout {
    fn default() -> (layout: DefaultEventLayout)
        ensures
            layout == DefaultEventLayout,
    {
        DefaultEventLayout
    }
}

impl EventLayout for DefaultEventLayout {
    const RING_KIND: u8 = EVENT_RING_KIND;

    const RING_CAPACITY: usize = EVENT_RING_CAPACITY;

    const RING_PAYLOAD_CAPACITY: usize = EVENT_RING_PAYLOAD_CAPACITY;

    const RING_TOPOLOGY: RingTopology = RingTopology::PerNode;
}

/// What travels on a layout's event ring.
pub struct EventRecord<L>(PhantomData<L>);

impl<L> Clone for EventRecord<L> {
    fn clone(&self) -> EventRecord<L> {
        EventRecord(PhantomData)
    }
}

impl<L: EventLayout> OrbitTyped for EventRecord<L> {
    const KIND: u8 = L::RING_KIND;

    const RING_CAPACITY: usize = L::RING_CAPACITY;

    const RING_PAYLOAD_CAPACITY: usize = L::RING_PAYLOAD_CAPACITY;

    const RING_TOPOLOGY: RingTopology = RingTopology::PerNode;
}

/// The ring that a layout's events declare.
pub proof fn lemma_event_record<L: EventLayout>()
    ensures
        <EventRecord<L> as OrbitTyped>::KIND == L::RING_KIND,
        declared::<EventRecord<L>>() == (RingSpec {
            capacity: L::RING_CAPACITY,
            payload_capacity: L::RING_PAYLOAD_CAPACITY,
            topology: RingTopology::PerNode,
        }),
{
}

/// The default ring.
pub proof fn lemma_default_layout()
    ensures
        DefaultEventLayout::RING_KIND == EVENT_RING_KIND,
        DefaultEventLayout::RING_CAPACITY == EVENT_RING_CAPACITY,
        DefaultEventLayout::RING_PAYLOAD_CAPACITY == EVENT_RING_PAYLOAD_CAPACITY,
        layout_fault::<DefaultEventLayout>() is None,
        declared::<EventRecord<DefaultEventLayout>>().valid(),
{
    assert(is_pow2(1_024)) by {
        reveal_with_fuel(is_pow2, 12);
    }
}

/// The first reason why a layout cannot be used.
pub open spec fn layout_fault<L: EventLayout>() -> Option<Seq<char>> {
    if L::RING_TOPOLOGY != RingTopology::PerNode {
        Some("the event ring must use per-node lanes"@)
    } else if L::RING_CAPACITY == 0 || !is_pow2(L::RING_CAPACITY as int) {
        Some("event-ring capacity must be a non-zero power of two"@)
    } else if L::RING_PAYLOAD_CAPACITY < HEADER_LEN {
        Some("event-ring payload cannot fit an event header"@)
    } else if L::RING_PAYLOAD_CAPACITY > u32::MAX {
        Some("event-ring payload exceeds the frame length field"@)
    } else {
        None
    }
}

/// Checks that a layout can be used.
pub fn validate<L: EventLayout>() -> (valid: Result<(), Error>)
    ensures
        match layout_fault::<L>() {
            Some(fault) => valid matches Err(Error::InvalidLayout(message)) && message@ == fault,
            None => valid is Ok,
        },
{
    if L::RING_TOPOLOGY != RingTopology::PerNode {
        return Err(Error::InvalidLayout("the event ring must use per-node lanes"));
    }
    if L::RING_CAPACITY == 0 || !is_power_of_two(L::RING_CAPACITY) {
        return Err(Error::InvalidLayout("event-ring capacity must be a non-zero power of two"));
    }
    if L::RING_PAYLOAD_CAPACITY < HEADER_LEN {
        return Err(Error::InvalidLayout("event-ring payload cannot fit an event header"));
    }
    if L::RING_PAYLOAD_CAPACITY > 0xFFFF_FFFF {
        return Err(Error::InvalidLayout("event-ring payload exceeds the frame length field"));
    }
    Ok(())
}

/// Which layouts can be used.
pub proof fn law_layouts_are_accepted_where_they_work<L: EventLayout>()
    ensures
        layout_fault::<L>() is None <==> {
            &&& L::RING_TOPOLOGY == RingTopology::PerNode
            &&& L::RING_CAPACITY > 0 && is_pow2(L::RING_CAPACITY as int)
            &&& 12 <= L::RING_PAYLOAD_CAPACITY < 0x1_0000_0000
        },
{
}

} // verus!
