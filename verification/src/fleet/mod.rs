//! Membership in a fleet of peers.
//!
//! A [`Fleet`] is one member's handle: its name, its node, the ids it mints,
//! and one ring per kind, created on first use.
use bytes::Bytes;
use dashmap::DashMap;
use vstd::prelude::*;

use crate::error::Error;
use crate::id::{kind_of, NetId64};
use crate::kinds::{new_table, set_value, table, value_or_insert};
use crate::numbers::successor;
use crate::octets::{all_octets, octets};
use crate::ring::cursor::{ReadView, RingRead};
use crate::ring::registry::{ring_fits, ring_for, rings_wf, usable, RingRegistry};
use crate::ring::{
    batch_ids, frame_view, Frame, LaneView, Ring, RingSpec, RingTopology, RingView,
};
use crate::typed::{declared, ring_spec, OrbitTyped};

pub use crate::node::NodeId;

pub mod cursor;
pub mod laws;
pub mod rings;
pub mod shared;
pub mod shared_laws;

verus! {

/// What a member's handle holds.
#[verifier::ext_equal]
pub struct FleetView {
    pub name: Seq<char>,
    pub capacity: u16,
    pub node: u16,
    pub ids: Map<u8, u64>,
    pub rings: Map<u8, RingView>,
}

impl FleetView {
    /// The ring of `T`: the one in use, or the fresh one its first use creates.
    pub open spec fn ring<T: OrbitTyped>(self) -> RingView {
        ring_for::<T>(self.rings, self.capacity)
    }

    /// The handle with another ring for `T`.
    pub open spec fn with_ring<T: OrbitTyped>(self, ring: RingView) -> FleetView {
        FleetView { rings: self.rings.insert(T::KIND, ring), ..self }
    }

    /// The next id that `next_id` mints for a kind.
    pub open spec fn next_counter(self, kind: u8) -> u64 {
        if self.ids.contains_key(kind) {
            self.ids[kind]
        } else {
            0
        }
    }

    /// The lane that this member's frames of `T` go to.
    pub open spec fn own_lane<T: OrbitTyped>(self) -> LaneView {
        self.ring::<T>().lanes[declared::<T>().lane_of(self.node)]
    }

    /// What a walking reader of this member finds at a counter of `T`'s ring.
    pub open spec fn state<T: OrbitTyped>(self, counter: u64) -> ReadView {
        if T::RING_TOPOLOGY == RingTopology::PerNode {
            self.ring::<T>().lane_state(self.node, counter)
        } else {
            self.ring::<T>().claimed_state(0, counter)
        }
    }

    /// A fleet with members, of which this is one, and rings that fit it.
    pub open spec fn wf(self) -> bool {
        &&& self.node < self.capacity
        &&& rings_wf(self.rings, self.capacity)
    }

    /// True when no other geometry than that of `T` is in use under its kind.
    pub open spec fn unclaimed<T: OrbitTyped>(self) -> bool {
        self.rings.contains_key(T::KIND) ==> self.rings[T::KIND].spec == declared::<T>()
    }

    /// True when `T` can be used with this handle.
    pub open spec fn usable<T: OrbitTyped>(self) -> bool {
        usable::<T>(self.rings)
    }
}

/// One member's handle on a fleet.
pub struct Fleet {
    name: String,
    fleet_capacity: u16,
    node_id: NodeId,
    id_counters: DashMap<u8, u64>,
    rings: RingRegistry,
}

impl View for Fleet {
    type V = FleetView;

    closed spec fn view(&self) -> FleetView {
        FleetView {
            name: self.name@,
            capacity: self.fleet_capacity,
            node: self.node_id.0,
            ids: table(self.id_counters),
            rings: self.rings@,
        }
    }
}

/// The ring of a usable type fits the fleet.
pub proof fn lemma_ring_fits<T: OrbitTyped>(view: FleetView)
    requires
        view.wf(),
        view.usable::<T>(),
    ensures
        ring_fits(view.ring::<T>(), T::KIND, view.capacity),
        view.ring::<T>().spec == declared::<T>(),
        view.ring::<T>().serves(view.node),
{
    if view.rings.contains_key(T::KIND) {
        assert(ring_fits(view.rings[T::KIND], T::KIND, view.capacity));
    } else {
        let ring = view.ring::<T>();
        assert forall|i: int| 0 <= i < ring.lanes.len() implies (#[trigger] ring.lanes[i]).slots.len()
            == ring.spec.capacity by {}
    }
}

/// A handle whose ring of `T` was replaced by a fitting one is well formed.
pub proof fn lemma_with_ring<T: OrbitTyped>(view: FleetView, ring: RingView)
    requires
        view.wf(),
        ring_fits(ring, T::KIND, view.capacity),
    ensures
        view.with_ring::<T>(ring).wf(),
        ring.spec == declared::<T>() && declared::<T>().valid() ==> view.with_ring::<T>(
            ring,
        ).usable::<T>(),
        view.with_ring::<T>(ring).ring::<T>() == ring,
{
    let after = view.with_ring::<T>(ring);
    assert forall|kind: u8| #[trigger] after.rings.contains_key(kind) implies ring_fits(
        after.rings[kind],
        kind,
        after.capacity,
    ) by {
        if kind != T::KIND {
            assert(view.rings.contains_key(kind));
        }
    }
}

impl Fleet {
    /// The handle's parts fit together.
    pub closed spec fn wf(&self) -> bool {
        &&& self@.wf()
        &&& self.rings.wf()
        &&& self.rings.capacity() == self.fleet_capacity
    }

    /// What well-formedness says of the view.
    pub proof fn lemma_wf(&self)
        requires
            self.wf(),
        ensures
            self@.wf(),
    {
    }

    /// Joins a fleet of `fleet_capacity` members as node zero.
    pub fn join(name: &str, fleet_capacity: u16) -> (fleet: Result<Fleet, Error>)
        ensures
            joined(name@, fleet_capacity, 0, fleet),
    {
        Fleet::join_as(name, fleet_capacity, NodeId(0))
    }

    /// Joins a fleet of `fleet_capacity` members as a given node.
    pub fn join_as(name: &str, fleet_capacity: u16, node_id: NodeId) -> (fleet: Result<
        Fleet,
        Error,
    >)
        ensures
            joined(name@, fleet_capacity, node_id.0, fleet),
    {
        if fleet_capacity == 0 {
            return Err(Error::EmptyFleet);
        }
        if node_id.get() >= fleet_capacity {
            return Err(Error::NodeOutsideFleet { node_id: node_id.get(), fleet_capacity });
        }
        let fleet = Fleet {
            name: name.to_owned(),
            fleet_capacity,
            node_id,
            id_counters: new_table(),
            rings: RingRegistry::new(fleet_capacity),
        };
        assert(fleet@.ids =~= Map::<u8, u64>::empty());
        Ok(fleet)
    }

    /// The fleet's name.
    pub fn name(&self) -> (name: &str)
        ensures
            name@ == self@.name,
    {
        self.name.as_str()
    }

    /// How many members the fleet has room for.
    pub fn fleet_size(&self) -> (size: u16)
        ensures
            size == self@.capacity,
    {
        self.fleet_capacity
    }

    /// How many members the fleet has room for.
    pub fn fleet_capacity(&self) -> (capacity: u16)
        ensures
            capacity == self@.capacity,
    {
        self.fleet_capacity
    }

    /// This member's node.
    pub fn node_id(&self) -> (node: NodeId)
        ensures
            node == NodeId(self@.node),
    {
        self.node_id
    }

    /// True when `T` can be used with this handle: its ring's geometry is valid, and
    /// no other one is in use under its kind.
    pub fn accepts<T: OrbitTyped>(&self) -> (usable: bool)
        requires
            self.wf(),
        ensures
            usable == self@.usable::<T>(),
    {
        let wanted: RingSpec = ring_spec::<T>();
        match self.rings.lookup(T::KIND) {
            Some(ring) => wanted.is_valid() && ring.spec() == wanted,
            None => wanted.is_valid(),
        }
    }

    /// Mints an id for `T` without publishing anything.
    pub fn next_id<T: OrbitTyped>(&mut self) -> (id: NetId64)
        requires
            old(self).wf(),
        ensures
            id == NetId64::of(T::KIND, old(self)@.node, old(self)@.next_counter(T::KIND)),
            final(self)@ == (FleetView {
                ids: old(self)@.ids.insert(
                    T::KIND,
                    successor(old(self)@.next_counter(T::KIND)),
                ),
                ..old(self)@
            }),
            final(self).wf(),
    {
        let counter: u64 = value_or_insert(&mut self.id_counters, T::KIND, 0);
        let next: u64 = counter.wrapping_add(1);
        set_value(&mut self.id_counters, T::KIND, next);
        proof {
            assert(self@.ids =~= old(self)@.ids.insert(T::KIND, next));
        }
        NetId64::make(T::KIND, self.node_id.get(), counter)
    }

    /// The ring of `T`, created on first use.
    pub fn ring<T: OrbitTyped>(&mut self) -> (ring: &mut Ring)
        requires
            old(self).wf(),
            old(self)@.usable::<T>(),
        ensures
            ring@ == old(self)@.ring::<T>(),
            ring_fits(ring@, T::KIND, old(self)@.capacity),
            ring@.spec == declared::<T>(),
            final(self)@ == old(self)@.with_ring::<T>(final(ring)@),
            ring_fits(final(ring)@, T::KIND, old(self)@.capacity) ==> final(self).wf(),
    {
        proof {
            lemma_ring_fits::<T>(self@);
            assert forall|ring: RingView| #[trigger]
                ring_fits(ring, T::KIND, self@.capacity) implies self@.with_ring::<T>(
                ring,
            ).wf() by {
                lemma_with_ring::<T>(self@, ring);
            }
        }
        self.rings.get_or_create::<T>()
    }

    /// Publishes one payload on the ring of `T` and returns the frame's id.
    pub fn publish<T: OrbitTyped>(&mut self, frame_kind: u8, ver: u64, payload: Bytes) -> (id:
        NetId64)
        requires
            old(self).wf(),
            old(self)@.usable::<T>(),
            octets(payload).len() <= T::RING_PAYLOAD_CAPACITY,
        ensures
            ({
                let ring = old(self)@.ring::<T>();
                let frame = ring.next_frame(old(self)@.node, frame_kind, ver, octets(payload));
                &&& id == frame.id
                &&& final(self)@ == old(self)@.with_ring::<T>(
                    ring.append(ring.spec.lane_of(old(self)@.node), frame),
                )
            }),
            final(self).wf(),
            final(self)@.usable::<T>(),
    {
        proof {
            lemma_ring_fits::<T>(self@);
        }
        let node_id = self.node_id;
        let ring = self.ring::<T>();
        ring.write(node_id, frame_kind, ver, payload)
    }

    /// Publishes a batch on one lane of the ring of `T` and returns the frames'
    /// consecutive ids.
    pub fn publish_batch<T: OrbitTyped>(
        &mut self,
        frame_kind: u8,
        ver: u64,
        payloads: Vec<Bytes>,
    ) -> (ids: Vec<NetId64>)
        requires
            old(self).wf(),
            old(self)@.usable::<T>(),
            payloads@.len() <= T::RING_CAPACITY,
            forall|i: int|
                0 <= i < payloads@.len() ==> octets(#[trigger] payloads@[i]).len()
                    <= T::RING_PAYLOAD_CAPACITY,
        ensures
            ({
                let ring = old(self)@.ring::<T>();
                &&& ids@ == batch_ids(ring, old(self)@.node, payloads@.len())
                &&& final(self)@ == old(self)@.with_ring::<T>(
                    ring.append_all(old(self)@.node, frame_kind, ver, all_octets(payloads@)),
                )
            }),
            final(self).wf(),
            final(self)@.usable::<T>(),
    {
        proof {
            lemma_ring_fits::<T>(self@);
            lemma_append_all_keeps(
                self@.ring::<T>(),
                self@.node,
                frame_kind,
                ver,
                all_octets(payloads@),
            );
        }
        let node_id = self.node_id;
        let ring = self.ring::<T>();
        ring.write_batch(node_id, frame_kind, ver, payloads)
    }

    /// Publishes one payload on the ring of `T` and returns the frame's id. Nobody
    /// outside the process waits on these rings, so nobody needs to be told.
    pub fn publish_notified<T: OrbitTyped>(
        &mut self,
        frame_kind: u8,
        ver: u64,
        payload: Bytes,
    ) -> (id: NetId64)
        requires
            old(self).wf(),
            old(self)@.usable::<T>(),
            octets(payload).len() <= T::RING_PAYLOAD_CAPACITY,
        ensures
            ({
                let ring = old(self)@.ring::<T>();
                let frame = ring.next_frame(old(self)@.node, frame_kind, ver, octets(payload));
                &&& id == frame.id
                &&& final(self)@ == old(self)@.with_ring::<T>(
                    ring.append(ring.spec.lane_of(old(self)@.node), frame),
                )
            }),
            final(self).wf(),
            final(self)@.usable::<T>(),
    {
        self.publish::<T>(frame_kind, ver, payload)
    }

    /// Publishes a batch on one lane of the ring of `T` and returns the frames'
    /// consecutive ids. Nobody outside the process waits on these rings.
    pub fn publish_batch_notified<T: OrbitTyped>(
        &mut self,
        frame_kind: u8,
        ver: u64,
        payloads: Vec<Bytes>,
    ) -> (ids: Vec<NetId64>)
        requires
            old(self).wf(),
            old(self)@.usable::<T>(),
            payloads@.len() <= T::RING_CAPACITY,
            forall|i: int|
                0 <= i < payloads@.len() ==> octets(#[trigger] payloads@[i]).len()
                    <= T::RING_PAYLOAD_CAPACITY,
        ensures
            ({
                let ring = old(self)@.ring::<T>();
                &&& ids@ == batch_ids(ring, old(self)@.node, payloads@.len())
                &&& final(self)@ == old(self)@.with_ring::<T>(
                    ring.append_all(old(self)@.node, frame_kind, ver, all_octets(payloads@)),
                )
            }),
            final(self).wf(),
            final(self)@.usable::<T>(),
    {
        self.publish_batch::<T>(frame_kind, ver, payloads)
    }

    /// The frame with this id, when its slot has not been overwritten.
    pub fn read(&self, id: NetId64) -> (frame: Option<Frame>)
        requires
            self.wf(),
        ensures
            frame_view(frame) == (if self@.rings.contains_key(kind_of(id.0)) {
                self@.rings[kind_of(id.0)].lookup(id)
            } else {
                None
            }),
    {
        match self.rings.lookup(id.kind()) {
            Some(ring) => ring.read(id),
            None => None,
        }
    }

    /// Head of one node's lane of `T`. On a shared ring every node addresses the
    /// sole lane.
    pub fn lane_head<T: OrbitTyped>(&self, node_id: NodeId) -> (head: u64)
        requires
            self.wf(),
            self@.usable::<T>(),
            self@.ring::<T>().serves(node_id.0),
        ensures
            head == self@.ring::<T>().lanes[declared::<T>().lane_of(node_id.0)].head,
    {
        match self.rings.lookup(T::KIND) {
            Some(ring) => ring.lane_head(node_id),
            None => 0,
        }
    }

    /// What stands in one node lane's slot for a counter of `T`.
    pub fn read_lane_at<T: OrbitTyped>(&self, node_id: NodeId, counter: u64) -> (frame: Option<
        Frame,
    >)
        requires
            self.wf(),
            self@.usable::<T>(),
            self@.ring::<T>().serves(node_id.0),
        ensures
            frame_view(frame) == self@.ring::<T>().lanes[declared::<T>().lane_of(node_id.0)].at(
                counter,
            ),
    {
        match self.rings.lookup(T::KIND) {
            Some(ring) => ring.read_lane_at(node_id, counter),
            None => {
                proof {
                    lemma_blank_slot::<T>(self@, node_id.0, counter);
                }
                None
            },
        }
    }

    /// What a walking reader finds at a counter of one node's lane of `T`.
    pub fn read_lane_state_at<T: OrbitTyped>(&self, node_id: NodeId, counter: u64) -> (read:
        RingRead)
        requires
            self.wf(),
            self@.usable::<T>(),
            self@.ring::<T>().serves(node_id.0),
        ensures
            read@ == self@.ring::<T>().lane_state(node_id.0, counter),
    {
        match self.rings.lookup(T::KIND) {
            Some(ring) => ring.read_lane_state_at(node_id, counter),
            None => {
                proof {
                    lemma_blank_slot::<T>(self@, node_id.0, counter);
                }
                if T::RING_TOPOLOGY != RingTopology::Shared {
                    RingRead::Unavailable
                } else {
                    RingRead::Pending
                }
            },
        }
    }

    /// Head of the ring of `T`: of this member's lane on a per-node ring, of
    /// the sole lane otherwise.
    pub fn head<T: OrbitTyped>(&self) -> (head: u64)
        requires
            self.wf(),
            self@.usable::<T>(),
        ensures
            head == self@.own_lane::<T>().head,
    {
        proof {
            lemma_ring_fits::<T>(self@);
        }
        self.lane_head::<T>(self.node_id)
    }

    /// The most recent frame of `T`: of this member's lane on a per-node ring,
    /// of the sole lane otherwise.
    pub fn read_head<T: OrbitTyped>(&self) -> (frame: Option<Frame>)
        requires
            self.wf(),
            self@.usable::<T>(),
        ensures
            frame_view(frame) == self@.ring::<T>().latest(declared::<T>().lane_of(self@.node)),
    {
        proof {
            lemma_ring_fits::<T>(self@);
        }
        let head: u64 = self.lane_head::<T>(self.node_id);
        if head > 0 {
            self.read_lane_at::<T>(self.node_id, head - 1)
        } else {
            None
        }
    }

    /// What stands in this member's slot for a counter of `T`.
    pub fn read_at<T: OrbitTyped>(&self, counter: u64) -> (frame: Option<Frame>)
        requires
            self.wf(),
            self@.usable::<T>(),
        ensures
            frame_view(frame) == self@.own_lane::<T>().at(counter),
    {
        proof {
            lemma_ring_fits::<T>(self@);
        }
        self.read_lane_at::<T>(self.node_id, counter)
    }

    /// What a walking reader of this member finds at a counter of `T`.
    pub fn read_state_at<T: OrbitTyped>(&self, counter: u64) -> (read: RingRead)
        requires
            self.wf(),
            self@.usable::<T>(),
        ensures
            read@ == self@.state::<T>(counter),
    {
        proof {
            lemma_ring_fits::<T>(self@);
        }
        if T::RING_TOPOLOGY == RingTopology::PerNode {
            return self.read_lane_state_at::<T>(self.node_id, counter);
        }
        match self.rings.lookup(T::KIND) {
            Some(ring) => ring.read_state_at(counter),
            None => {
                proof {
                    lemma_blank_slot::<T>(self@, 0, counter);
                }
                RingRead::Pending
            },
        }
    }

    /// Slots per lane of the ring of `T`.
    pub fn ring_capacity<T: OrbitTyped>(&self) -> (capacity: usize)
        requires
            self.wf(),
            self@.usable::<T>(),
        ensures
            capacity == T::RING_CAPACITY,
    {
        match self.rings.lookup(T::KIND) {
            Some(ring) => ring.capacity(),
            None => T::RING_CAPACITY,
        }
    }

    /// Allocates one version shared by every lane of `T`.
    pub fn next_ring_version<T: OrbitTyped>(&mut self) -> (version: u64)
        requires
            old(self).wf(),
            old(self)@.usable::<T>(),
            old(self)@.ring::<T>().version < u64::MAX,
        ensures
            version == old(self)@.ring::<T>().version + 1,
            final(self)@ == old(self)@.with_ring::<T>(
                RingView { version, ..old(self)@.ring::<T>() },
            ),
            final(self).wf(),
            final(self)@.usable::<T>(),
    {
        let ring = self.ring::<T>();
        ring.next_version()
    }

    /// The version allocated last for `T`.
    pub fn current_ring_version<T: OrbitTyped>(&self) -> (version: u64)
        requires
            self.wf(),
            self@.usable::<T>(),
        ensures
            version == self@.ring::<T>().version,
    {
        match self.rings.lookup(T::KIND) {
            Some(ring) => ring.current_version(),
            None => 0,
        }
    }

    /// Clears every lane of `T` and returns all heads and the version counter
    /// to zero.
    pub fn reset_ring<T: OrbitTyped>(&mut self)
        requires
            old(self).wf(),
            old(self)@.usable::<T>(),
        ensures
            final(self)@ == old(self)@.with_ring::<T>(
                RingView::blank(
                    T::KIND,
                    declared::<T>(),
                    declared::<T>().lanes_for(old(self)@.capacity) as nat,
                ),
            ),
            final(self).wf(),
            final(self)@.usable::<T>(),
    {
        let ring = self.ring::<T>();
        ring.reset();
    }
}

/// What joining a fleet gives.
pub open spec fn joined(
    name: Seq<char>,
    fleet_capacity: u16,
    node: u16,
    fleet: Result<Fleet, Error>,
) -> bool {
    if fleet_capacity == 0 {
        fleet == Err::<Fleet, Error>(Error::EmptyFleet)
    } else if node >= fleet_capacity {
        fleet == Err::<Fleet, Error>(Error::NodeOutsideFleet { node_id: node, fleet_capacity })
    } else {
        match fleet {
            Ok(fleet) => {
                &&& fleet.wf()
                &&& fleet@ == (FleetView {
                    name,
                    capacity: fleet_capacity,
                    node,
                    ids: Map::empty(),
                    rings: Map::empty(),
                })
            },
            Err(_) => false,
        }
    }
}

proof fn lemma_blank_slot<T: OrbitTyped>(view: FleetView, node: u16, counter: u64)
    requires
        view.wf(),
        view.usable::<T>(),
        !view.rings.contains_key(T::KIND),
        view.ring::<T>().serves(node),
    ensures
        view.ring::<T>().lanes[declared::<T>().lane_of(node)].at(counter) is None,
{
    let capacity = declared::<T>().capacity as int;
    vstd::arithmetic::div_mod::lemma_mod_bound(counter as int, capacity);
}

/// Appending a batch keeps the ring's kind, geometry and lanes.
pub proof fn lemma_append_all_keeps(
    ring: RingView,
    node: u16,
    frame_kind: u8,
    ver: u64,
    payloads: Seq<Seq<u8>>,
)
    requires
        ring.wf(),
        ring.serves(node),
    ensures
        ({
            let after = ring.append_all(node, frame_kind, ver, payloads);
            &&& after.wf()
            &&& after.kind == ring.kind
            &&& after.spec == ring.spec
            &&& after.version == ring.version
            &&& after.lanes.len() == ring.lanes.len()
        }),
    decreases payloads.len(),
{
    if payloads.len() > 0 {
        lemma_append_all_keeps(ring, node, frame_kind, ver, payloads.drop_last());
    }
}

} // verus!
