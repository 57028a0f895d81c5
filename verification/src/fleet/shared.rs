//! A member's handle on a fleet whose rings are shared-memory segments.
//!
//! A ring is attached before it is used: whoever maps segments hands over the
//! bytes of the one that exists, or nothing where it is to be created. A ring
//! that could not be attached reads as an empty one.
use bytes::Bytes;
use dashmap::DashMap;
use std::marker::PhantomData;
use vstd::pervasive::unreached;
use vstd::prelude::*;

use crate::error::Error;
use crate::fleet::cursor::{FleetLaneCursor, FleetLanePoll, LaneCursorView};
use crate::fleet::{successor, Fleet, NodeId};
use crate::id::{kind_of, NetId64};
use crate::kinds::{new_table, set_value, table, value_or_insert};
use crate::numbers::{max_of, min_of};
use crate::octets::{all_octets, octets};
use crate::ring::cursor::{
    poll_ring, source_view, ReadView, RingCursor, RingFrameSource, RingPoll, RingRead,
    SourceView,
};
use crate::ring::shm::layout::ShmError;
use crate::ring::shm::registry::{
    registered, shm_ring_fits, shm_rings_wf, ShmRingRegistry,
};
use crate::ring::shm::slot::LAST_COUNTER;
use crate::ring::shm::{batch_error, next_notification, ShmRing, ShmView};
use crate::ring::{frame_view, frame_views, Frame, FrameView, RingTopology};
use crate::typed::{declared, OrbitTyped};

verus! {

/// What a member's handle on shared rings holds.
#[verifier::ext_equal]
pub struct ShmFleetView {
    pub name: Seq<char>,
    pub capacity: u16,
    pub node: u16,
    pub ids: Map<u8, u64>,
    pub rings: Map<u8, ShmView>,
}

impl ShmFleetView {
    /// The member is one of the fleet's, and the rings fit the fleet.
    pub open spec fn wf(self) -> bool {
        &&& self.node < self.capacity
        &&& shm_rings_wf(self.rings, self.capacity)
    }

    /// True when the ring of `T` is attached, with the geometry that `T` declares.
    pub open spec fn attached<T: OrbitTyped>(self) -> bool {
        self.rings.contains_key(T::KIND) && self.rings[T::KIND].geometry.spec == declared::<T>()
    }

    /// The attached ring of `T`.
    pub open spec fn ring<T: OrbitTyped>(self) -> ShmView {
        self.rings[T::KIND]
    }

    /// The handle with another state of `T`'s ring.
    pub open spec fn with_ring<T: OrbitTyped>(self, ring: ShmView) -> ShmFleetView {
        ShmFleetView { rings: self.rings.insert(T::KIND, ring), ..self }
    }

    /// The counter that the next minted id of a kind carries.
    pub open spec fn next_counter(self, kind: u8) -> u64 {
        if self.ids.contains_key(kind) {
            self.ids[kind]
        } else {
            0
        }
    }

    /// The visible head of a node's lane of `T`: none is visible of a ring that is
    /// not attached.
    pub open spec fn lane_head<T: OrbitTyped>(self, node: u16) -> u64 {
        if self.attached::<T>() {
            self.ring::<T>().lanes[declared::<T>().lane_of(node)].head
        } else {
            0
        }
    }

    /// What stands committed in the slot of a node's lane for a counter.
    pub open spec fn lane_at<T: OrbitTyped>(self, node: u16, counter: u64) -> Option<FrameView> {
        if self.attached::<T>() {
            self.ring::<T>().slot(declared::<T>().lane_of(node), counter).frame()
        } else {
            None
        }
    }

    /// What a walking reader finds at a counter of a node's lane.
    pub open spec fn lane_state<T: OrbitTyped>(self, node: u16, counter: u64) -> ReadView {
        if self.attached::<T>() {
            self.ring::<T>().state(declared::<T>().lane_of(node), counter)
        } else {
            ReadView::Unavailable
        }
    }

    /// A node's lane of `T`, as a cursor walks it.
    pub open spec fn lane<T: OrbitTyped>(self, node: u16) -> SourceView {
        SourceView {
            kind: T::KIND,
            head: self.lane_head::<T>(node),
            capacity: T::RING_CAPACITY,
            states: |counter: u64| self.lane_state::<T>(node, counter),
        }
    }

    /// The frame of an id, while its slot holds the same id.
    pub open spec fn found(self, id: NetId64) -> Option<FrameView> {
        if self.rings.contains_key(kind_of(id.0)) {
            match self.rings[kind_of(id.0)].lookup(id) {
                Some(frame) => if frame.id == id {
                    Some(frame)
                } else {
                    None
                },
                None => None,
            }
        } else {
            None
        }
    }

    /// The most recent frame of a node's lane of `T`.
    pub open spec fn latest<T: OrbitTyped>(self, node: u16) -> Option<FrameView> {
        if self.attached::<T>() {
            self.ring::<T>().latest(declared::<T>().lane_of(node))
        } else {
            None
        }
    }

    /// True when every counter below a node's head can be walked.
    pub open spec fn walkable<T: OrbitTyped>(self, node: u16) -> bool {
        self.lane_head::<T>(node) <= LAST_COUNTER
    }
}

/// A member's handle on a fleet whose rings every process of the fleet maps.
pub struct ShmFleet {
    name: String,
    fleet_capacity: u16,
    node_id: NodeId,
    id_counters: DashMap<u8, u64>,
    rings: ShmRingRegistry,
}

impl View for ShmFleet {
    type V = ShmFleetView;

    closed spec fn view(&self) -> ShmFleetView {
        ShmFleetView {
            name: self.name@,
            capacity: self.fleet_capacity,
            node: self.node_id.0,
            ids: table(self.id_counters),
            rings: self.rings@,
        }
    }
}

/// What joining a fleet over shared memory gives.
pub open spec fn joined_shm(
    name: Seq<char>,
    fleet_capacity: u16,
    node: u16,
    fleet: Result<ShmFleet, Error>,
) -> bool {
    if fleet_capacity == 0 {
        fleet == Err::<ShmFleet, Error>(Error::EmptyFleet)
    } else if node >= fleet_capacity {
        fleet == Err::<ShmFleet, Error>(Error::NodeOutsideFleet { node_id: node, fleet_capacity })
    } else {
        &&& fleet is Ok
        &&& fleet->Ok_0.wf()
        &&& fleet->Ok_0@ == (ShmFleetView {
            name,
            capacity: fleet_capacity,
            node,
            ids: Map::empty(),
            rings: Map::empty(),
        })
    }
}

impl Fleet {
    /// Joins a fleet over shared memory as node zero.
    pub fn join_shm(name: &str, fleet_capacity: u16) -> (fleet: Result<ShmFleet, Error>)
        ensures
            joined_shm(name@, fleet_capacity, 0, fleet),
    {
        Fleet::join_shm_as(name, fleet_capacity, NodeId(0))
    }

    /// Joins a fleet over shared memory as a given node. A per-node ring wants one
    /// active member per node; who that is lies with the members.
    pub fn join_shm_as(name: &str, fleet_capacity: u16, node_id: NodeId) -> (fleet: Result<
        ShmFleet,
        Error,
    >)
        ensures
            joined_shm(name@, fleet_capacity, node_id.0, fleet),
    {
        if fleet_capacity == 0 {
            return Err(Error::EmptyFleet);
        }
        if node_id.get() >= fleet_capacity {
            return Err(Error::NodeOutsideFleet { node_id: node_id.get(), fleet_capacity });
        }
        let fleet = ShmFleet {
            name: name.to_owned(),
            fleet_capacity,
            node_id,
            id_counters: new_table(),
            rings: ShmRingRegistry::new(fleet_capacity),
        };
        assert(fleet@.ids =~= Map::<u8, u64>::empty());
        Ok(fleet)
    }

    /// False: the rings of this handle are its process's own.
    pub fn is_shm(&self) -> (shm: bool)
        ensures
            !shm,
    {
        false
    }
}

impl ShmFleet {
    /// The handle's parts fit together.
    pub closed spec fn wf(&self) -> bool {
        &&& self@.wf()
        &&& self.rings.wf()
        &&& self.rings.capacity() == self.fleet_capacity
    }

    /// What well-formedness says of the view.
    pub proof fn lemma_wf(&self)
        requires
            self.wf(),
        ensures
            self@.wf(),
    {
    }

    /// The fleet's name.
    pub fn name(&self) -> (name: &str)
        ensures
            name@ == self@.name,
    {
        self.name.as_str()
    }

    /// How many members the fleet has room for.
    pub fn fleet_capacity(&self) -> (capacity: u16)
        ensures
            capacity == self@.capacity,
    {
        self.fleet_capacity
    }

    /// This member's node.
    pub fn node_id(&self) -> (node: NodeId)
        ensures
            node == NodeId(self@.node),
    {
        self.node_id
    }

    /// True: every process of the fleet maps the rings of this handle.
    pub fn is_shm(&self) -> (shm: bool)
        ensures
            shm,
    {
        true
    }

    /// Mints an id for `T` without publishing anything.
    pub fn next_id<T: OrbitTyped>(&mut self) -> (id: NetId64)
        requires
            old(self).wf(),
        ensures
            id == NetId64::of(T::KIND, old(self)@.node, old(self)@.next_counter(T::KIND)),
            final(self)@ == (ShmFleetView {
                ids: old(self)@.ids.insert(
                    T::KIND,
                    successor(old(self)@.next_counter(T::KIND)),
                ),
                ..old(self)@
            }),
            final(self).wf(),
    {
        let counter: u64 = value_or_insert(&mut self.id_counters, T::KIND, 0);
        let next: u64 = counter.wrapping_add(1);
        set_value(&mut self.id_counters, T::KIND, next);
        proof {
            assert(self@.ids =~= old(self)@.ids.insert(T::KIND, next));
        }
        NetId64::make(T::KIND, self.node_id.get(), counter)
    }

    /// Attaches the ring of `T`: a ring that is attached stays as it is, another
    /// one is opened over the segment that exists, or over a fresh one.
    pub fn shm_ring<T: OrbitTyped>(&mut self, existing: Option<Vec<u8>>) -> (ring: Result<
        (),
        ShmError,
    >)
        requires
            old(self).wf(),
        ensures
            registered(
                old(self)@.rings,
                old(self)@.capacity,
                T::KIND,
                declared::<T>(),
                existing,
                final(self)@.rings,
                ring,
            ),
            final(self)@ == (ShmFleetView { rings: final(self)@.rings, ..old(self)@ }),
            ring is Ok ==> final(self)@.attached::<T>(),
            final(self).wf(),
    {
        let attached = self.rings.get_or_create_for::<T>(existing);
        proof {
            self.rings.lemma_wf();
        }
        attached
    }

    /// The attached ring of a kind.
    pub fn lookup(&self, kind: u8) -> (ring: Option<&ShmRing>)
        requires
            self.wf(),
        ensures
            match ring {
                Some(ring) => self@.rings.contains_key(kind) && ring@ == self@.rings[kind]
                    && ring.wf(),
                None => !self@.rings.contains_key(kind),
            },
    {
        self.rings.lookup(kind)
    }

    fn attached_ring<T: OrbitTyped>(&self) -> (ring: Option<&ShmRing>)
        requires
            self.wf(),
        ensures
            match ring {
                Some(ring) => {
                    &&& self@.attached::<T>()
                    &&& ring@ == self@.ring::<T>()
                    &&& ring.wf()
                    &&& ring@.geometry.kind == T::KIND
                    &&& ring@.geometry.lane_count == declared::<T>().lanes_for(self@.capacity)
                },
                None => !self@.attached::<T>(),
            },
    {
        match self.rings.lookup(T::KIND) {
            Some(ring) => {
                if ring.spec() == crate::typed::ring_spec::<T>() {
                    Some(ring)
                } else {
                    None
                }
            },
            None => None,
        }
    }

    fn ring_mut<T: OrbitTyped>(&mut self) -> (ring: &mut ShmRing)
        requires
            old(self).wf(),
            old(self)@.attached::<T>(),
        ensures
            ring@ == old(self)@.ring::<T>(),
            ring.wf(),
            ring@.geometry.kind == T::KIND,
            ring@.geometry.spec == declared::<T>(),
            ring@.geometry.serves(old(self)@.node),
            final(self)@ == old(self)@.with_ring::<T>(final(ring)@),
            final(ring).wf() && final(ring)@.geometry == ring@.geometry ==> final(self).wf()
                && final(self)@.attached::<T>(),
    {
        proof {
            self.rings.lemma_wf();
            let before = self.rings@;
            assert forall|ring: ShmRing|
                ring.wf() && ring@.geometry == before[T::KIND].geometry implies shm_rings_wf(
                #[trigger] before.insert(T::KIND, ring@),
                self.fleet_capacity,
            ) by {
                ring.lemma_shape();
                let rings = before.insert(T::KIND, ring@);
                assert forall|kind: u8| #[trigger] rings.contains_key(kind) implies shm_ring_fits(
                    rings[kind],
                    kind,
                    self.fleet_capacity,
                ) by {
                    assert(before.contains_key(kind));
                }
            }
        }
        self.rings.ring_mut(T::KIND)
    }

    /// Publishes one payload on the ring of `T` and returns the frame's id.
    pub fn publish<T: OrbitTyped>(&mut self, frame_kind: u8, ver: u64, payload: Bytes) -> (id:
        NetId64)
        requires
            old(self).wf(),
            old(self)@.attached::<T>(),
            octets(payload).len() <= T::RING_PAYLOAD_CAPACITY,
            old(self)@.walkable::<T>(old(self)@.node),
        ensures
            ({
                let ring = old(self)@.ring::<T>();
                let frame = ring.next_frame(old(self)@.node, frame_kind, ver, octets(payload));
                &&& id == frame.id
                &&& final(self)@ == old(self)@.with_ring::<T>(
                    ring.publish(declared::<T>().lane_of(old(self)@.node), frame),
                )
            }),
            final(self).wf(),
            final(self)@.attached::<T>(),
    {
        let node_id = self.node_id;
        let ring = self.ring_mut::<T>();
        match ring.write(node_id, frame_kind, ver, payload) {
            Ok(id) => id,
            Err(_) => unreached(),
        }
    }

    /// Publishes a batch on one lane of the ring of `T` and returns the frames'
    /// consecutive ids.
    pub fn publish_batch<T: OrbitTyped>(
        &mut self,
        frame_kind: u8,
        ver: u64,
        payloads: Vec<Bytes>,
    ) -> (ids: Vec<NetId64>)
        requires
            old(self).wf(),
            old(self)@.attached::<T>(),
            batch_error(declared::<T>(), all_octets(payloads@)) is None,
            old(self)@.lane_head::<T>(old(self)@.node) + payloads@.len() <= LAST_COUNTER + 1,
        ensures
            ({
                let ring = old(self)@.ring::<T>();
                &&& ids@ == shm_batch_ids(ring, old(self)@.node, payloads@.len())
                &&& final(self)@ == old(self)@.with_ring::<T>(
                    ring.publish_all(old(self)@.node, frame_kind, ver, all_octets(payloads@)),
                )
            }),
            final(self).wf(),
            final(self)@.attached::<T>(),
    {
        let node_id = self.node_id;
        proof {
            lemma_publish_all_keeps(
                self@.ring::<T>(),
                node_id.0,
                frame_kind,
                ver,
                all_octets(payloads@),
            );
        }
        let ring = self.ring_mut::<T>();
        match ring.write_batch(node_id, frame_kind, ver, payloads) {
            Ok(ids) => {
                assert(ids@ =~= shm_batch_ids(old(self)@.ring::<T>(), node_id.0, payloads@.len()));
                ids
            },
            Err(_) => unreached(),
        }
    }

    /// Publishes one payload on the ring of `T`, and then changes the word that
    /// waiters watch. A payload that is refused changes nothing.
    pub fn publish_notified<T: OrbitTyped>(&mut self, frame_kind: u8, ver: u64, payload: Bytes) -> (
    id: Result<NetId64, ShmError>)
        requires
            old(self).wf(),
            old(self)@.attached::<T>(),
            octets(payload).len() <= T::RING_PAYLOAD_CAPACITY ==> old(self)@.walkable::<T>(
                old(self)@.node,
            ),
        ensures
            ({
                let ring = old(self)@.ring::<T>();
                let frame = ring.next_frame(old(self)@.node, frame_kind, ver, octets(payload));
                if octets(payload).len() > T::RING_PAYLOAD_CAPACITY {
                    &&& id is Err
                    &&& id->Err_0 matches ShmError::PayloadTooLarge { len, max }
                        && len == octets(payload).len() && max == T::RING_PAYLOAD_CAPACITY
                    &&& final(self)@ == old(self)@
                } else {
                    let written = ring.publish(declared::<T>().lane_of(old(self)@.node), frame);
                    &&& id == Ok::<NetId64, ShmError>(frame.id)
                    &&& final(self)@ == old(self)@.with_ring::<T>(notified(written))
                }
            }),
            final(self).wf(),
            final(self)@.attached::<T>(),
    {
        let node_id = self.node_id;
        let ring = self.ring_mut::<T>();
        match ring.write(node_id, frame_kind, ver, payload) {
            Ok(id) => {
                ring.notify();
                Ok(id)
            },
            Err(error) => {
                assert(old(self)@.with_ring::<T>(old(self)@.ring::<T>()) =~= old(self)@);
                Err(error)
            },
        }
    }

    /// Publishes a batch on one lane of the ring of `T`, and then, once, changes
    /// the word that waiters watch. A batch that is refused or empty changes
    /// nothing.
    pub fn publish_batch_notified<T: OrbitTyped>(
        &mut self,
        frame_kind: u8,
        ver: u64,
        payloads: Vec<Bytes>,
    ) -> (ids: Result<Vec<NetId64>, ShmError>)
        requires
            old(self).wf(),
            old(self)@.attached::<T>(),
            batch_error(declared::<T>(), all_octets(payloads@)) is None ==> old(self)@.lane_head::<T>(
                old(self)@.node,
            ) + payloads@.len() <= LAST_COUNTER + 1,
        ensures
            ({
                let ring = old(self)@.ring::<T>();
                let node = old(self)@.node;
                match batch_error(declared::<T>(), all_octets(payloads@)) {
                    Some(error) => {
                        &&& ids == Err::<Vec<NetId64>, ShmError>(error)
                        &&& final(self)@ == old(self)@
                    },
                    None => {
                        let written = ring.publish_all(
                            node,
                            frame_kind,
                            ver,
                            all_octets(payloads@),
                        );
                        &&& ids is Ok
                        &&& ids->Ok_0@ == shm_batch_ids(ring, node, payloads@.len())
                        &&& final(self)@ == if payloads@.len() == 0 {
                            old(self)@
                        } else {
                            old(self)@.with_ring::<T>(notified(written))
                        }
                    },
                }
            }),
            final(self).wf(),
            final(self)@.attached::<T>(),
    {
        let node_id = self.node_id;
        let ghost before = self@;
        proof {
            lemma_publish_all_keeps(
                self@.ring::<T>(),
                node_id.0,
                frame_kind,
                ver,
                all_octets(payloads@),
            );
            assert(before.with_ring::<T>(before.ring::<T>()) =~= before);
            assert(all_octets(payloads@).len() == payloads@.len());
        }
        let ring = self.ring_mut::<T>();
        match ring.write_batch(node_id, frame_kind, ver, payloads) {
            Ok(ids) => {
                assert(ids@ =~= shm_batch_ids(before.ring::<T>(), node_id.0, payloads@.len()));
                if ids.len() > 0 {
                    ring.notify();
                }
                Ok(ids)
            },
            Err(error) => Err(error),
        }
    }

    /// The frame with this id, when its slot still holds the same id.
    pub fn read(&self, id: NetId64) -> (frame: Option<Frame>)
        requires
            self.wf(),
        ensures
            frame_view(frame) == self@.found(id),
    {
        match self.rings.lookup(id.kind()) {
            Some(ring) => match ring.read(id) {
                Some(frame) => if frame.id == id {
                    Some(frame)
                } else {
                    None
                },
                None => None,
            },
            None => None,
        }
    }

    /// Head of one node's lane.
    pub fn lane_head<T: OrbitTyped>(&self, node_id: NodeId) -> (head: u64)
        requires
            self.wf(),
            node_id.0 < self@.capacity,
        ensures
            head == self@.lane_head::<T>(node_id.0),
    {
        match self.attached_ring::<T>() {
            Some(ring) => ring.lane_head(node_id),
            None => 0,
        }
    }

    /// What stands in the slot of one node's lane for a counter.
    pub fn read_lane_at<T: OrbitTyped>(&self, node_id: NodeId, counter: u64) -> (frame: Option<
        Frame,
    >)
        requires
            self.wf(),
            node_id.0 < self@.capacity,
        ensures
            frame_view(frame) == self@.lane_at::<T>(node_id.0, counter),
    {
        match self.attached_ring::<T>() {
            Some(ring) => ring.read_lane_at(node_id, counter),
            None => None,
        }
    }

    /// What a walking reader finds at a counter of one node's lane.
    pub fn read_lane_state_at<T: OrbitTyped>(&self, node_id: NodeId, counter: u64) -> (read:
        RingRead)
        requires
            self.wf(),
            node_id.0 < self@.capacity,
            counter < LAST_COUNTER,
        ensures
            read@ == self@.lane_state::<T>(node_id.0, counter),
    {
        match self.attached_ring::<T>() {
            Some(ring) => ring.read_lane_state_at(node_id, counter),
            None => RingRead::Unavailable,
        }
    }

    /// Head of this member's lane of a per-node ring, or of the sole lane.
    pub fn head<T: OrbitTyped>(&self) -> (head: u64)
        requires
            self.wf(),
        ensures
            head == self@.lane_head::<T>(self@.node),
    {
        self.lane_head::<T>(self.node_id)
    }

    /// The most recent frame of this member's lane, or of the sole lane.
    pub fn read_head<T: OrbitTyped>(&self) -> (frame: Option<Frame>)
        requires
            self.wf(),
        ensures
            frame_view(frame) == self@.latest::<T>(self@.node),
    {
        match self.attached_ring::<T>() {
            Some(ring) => ring.read_lane_head(self.node_id),
            None => None,
        }
    }

    /// What stands in the slot of this member's lane, or of the sole lane.
    pub fn read_at<T: OrbitTyped>(&self, counter: u64) -> (frame: Option<Frame>)
        requires
            self.wf(),
        ensures
            frame_view(frame) == self@.lane_at::<T>(self@.node, counter),
    {
        self.read_lane_at::<T>(self.node_id, counter)
    }

    /// How many slots a lane of the ring of `T` retains.
    pub fn ring_capacity<T: OrbitTyped>(&self) -> (capacity: usize)
        requires
            self.wf(),
        ensures
            capacity == T::RING_CAPACITY,
    {
        match self.attached_ring::<T>() {
            Some(ring) => ring.capacity(),
            None => T::RING_CAPACITY,
        }
    }

    /// Allocates one version shared by every lane of `T`.
    pub fn next_ring_version<T: OrbitTyped>(&mut self) -> (version: u64)
        requires
            old(self).wf(),
            old(self)@.attached::<T>(),
            old(self)@.ring::<T>().version < u64::MAX,
        ensures
            version == old(self)@.ring::<T>().version + 1,
            final(self)@ == old(self)@.with_ring::<T>(
                ShmView { version, ..old(self)@.ring::<T>() },
            ),
            final(self).wf(),
            final(self)@.attached::<T>(),
    {
        let ring = self.ring_mut::<T>();
        ring.next_version()
    }

    /// The version of `T` allocated last.
    pub fn current_ring_version<T: OrbitTyped>(&self) -> (version: u64)
        requires
            self.wf(),
            self@.attached::<T>(),
        ensures
            version == self@.ring::<T>().version,
    {
        match self.attached_ring::<T>() {
            Some(ring) => ring.current_version(),
            None => unreached(),
        }
    }

    /// Clears every lane of `T`. Nobody may publish meanwhile.
    pub fn reset_ring<T: OrbitTyped>(&mut self)
        requires
            old(self).wf(),
            old(self)@.attached::<T>(),
        ensures
            final(self)@ == old(self)@.with_ring::<T>(
                ShmView {
                    notification: old(self)@.ring::<T>().notification,
                    ..ShmView::blank(old(self)@.ring::<T>().geometry)
                },
            ),
            final(self).wf(),
            final(self)@.attached::<T>(),
    {
        let ring = self.ring_mut::<T>();
        ring.reset();
    }
}

/// A ring after its waiters were told of a change.
pub open spec fn notified(ring: ShmView) -> ShmView {
    ShmView { notification: next_notification(ring.notification), ..ring }
}

/// The ids of a node's next frames.
pub open spec fn shm_batch_ids(ring: ShmView, node: u16, count: nat) -> Seq<NetId64> {
    Seq::new(
        count,
        |i: int|
            NetId64::of(
                ring.geometry.kind,
                node,
                (ring.lanes[ring.geometry.spec.lane_of(node)].head + i) as u64,
            ),
    )
}

/// Publishing leaves a ring's geometry.
proof fn lemma_publish_all_keeps(
    ring: ShmView,
    node: u16,
    frame_kind: u8,
    ver: u64,
    payloads: Seq<Seq<u8>>,
)
    ensures
        ring.publish_all(node, frame_kind, ver, payloads).geometry == ring.geometry,
        payloads.len() == 0 ==> ring.publish_all(node, frame_kind, ver, payloads) == ring,
    decreases payloads.len(),
{
    if payloads.len() > 0 {
        lemma_publish_all_keeps(ring, node, frame_kind, ver, payloads.drop_last());
    }
}

/// The frames that a walk of a lane from `from` to its head gives.
pub open spec fn walk_frames(lane: SourceView, from: u64) -> Seq<FrameView> {
    if from >= lane.head {
        Seq::empty()
    } else {
        lane.collected(lane.walk_start(from), lane.head as int)
    }
}

/// The counters that a walk of a lane from `from` finds overwritten.
pub open spec fn walk_overwritten(lane: SourceView, from: u64) -> int {
    if from >= lane.head {
        0
    } else {
        lane.walk_start(from) - from
    }
}

/// The counters that a walk of a lane from `from` cannot use.
pub open spec fn walk_unavailable(lane: SourceView, from: u64) -> int {
    if from >= lane.head {
        0
    } else {
        lane.head - lane.walk_start(from) - walk_frames(lane, from).len()
    }
}

/// The frames of the first lanes, lane after lane.
pub open spec fn walks_frames(
    lanes: spec_fn(u16) -> SourceView,
    positions: Seq<u64>,
    nodes: nat,
) -> Seq<FrameView>
    decreases nodes,
{
    if nodes == 0 {
        Seq::empty()
    } else {
        walks_frames(lanes, positions, (nodes - 1) as nat) + walk_frames(
            lanes((nodes - 1) as u16),
            positions[nodes - 1],
        )
    }
}

/// The overwritten counters of the first lanes.
pub open spec fn walks_overwritten(
    lanes: spec_fn(u16) -> SourceView,
    positions: Seq<u64>,
    nodes: nat,
) -> int
    decreases nodes,
{
    if nodes == 0 {
        0
    } else {
        walks_overwritten(lanes, positions, (nodes - 1) as nat) + walk_overwritten(
            lanes((nodes - 1) as u16),
            positions[nodes - 1],
        )
    }
}

/// The unusable counters of the first lanes.
pub open spec fn walks_unavailable(
    lanes: spec_fn(u16) -> SourceView,
    positions: Seq<u64>,
    nodes: nat,
) -> int
    decreases nodes,
{
    if nodes == 0 {
        0
    } else {
        walks_unavailable(lanes, positions, (nodes - 1) as nat) + walk_unavailable(
            lanes((nodes - 1) as u16),
            positions[nodes - 1],
        )
    }
}

/// What polling lanes from these positions gives: the frames of each lane in
/// order, lane after lane, and the losses of all lanes, which stop at the largest
/// `u64`.
pub open spec fn is_lanes_walk(
    lanes: spec_fn(u16) -> SourceView,
    positions: Seq<u64>,
    poll: FleetLanePoll,
) -> bool {
    &&& frame_views(poll.frames@) == walks_frames(lanes, positions, positions.len())
    &&& poll.loss.overwritten == min_of(
        walks_overwritten(lanes, positions, positions.len()),
        u64::MAX as int,
    )
    &&& poll.loss.unavailable == min_of(
        walks_unavailable(lanes, positions, positions.len()),
        u64::MAX as int,
    )
}

/// A walk collects at most one frame per counter.
proof fn lemma_collected_len(lane: SourceView, from: int, to: int)
    ensures
        lane.collected(from, to).len() <= max_of(to - from, 0),
    decreases to - from,
{
    if from < to {
        lemma_collected_len(lane, from, to - 1);
    }
}

/// A walk of a lane in which nothing is in flight reaches the head.
proof fn lemma_walk(lane: SourceView, from: u64, poll: RingPoll)
    requires
        lane.is_poll(from, poll),
        forall|counter: u64| !(#[trigger] (lane.states)(counter) is Pending),
    ensures
        poll.to_counter == lane.head,
        frame_views(poll.frames@) == walk_frames(lane, from),
        poll.loss.overwritten == walk_overwritten(lane, from),
        poll.loss.unavailable == walk_unavailable(lane, from),
        0 <= walk_overwritten(lane, from),
        0 <= walk_unavailable(lane, from),
{
    if from < lane.head {
        let start = lane.walk_start(from);
        if poll.to_counter < lane.head {
            assert((lane.states)(poll.to_counter) is Pending);
        }
        lemma_collected_len(lane, start, lane.head as int);
        assert(frame_views(poll.frames@).len() == poll.frames@.len());
    }
}

/// One node's lane of the ring of `T`.
pub struct ShmLaneSource<'a, T: OrbitTyped> {
    fleet: &'a ShmFleet,
    node_id: NodeId,
    marker: PhantomData<T>,
}

impl<'a, T: OrbitTyped> ShmLaneSource<'a, T> {
    /// The walked handle, as a specification.
    pub closed spec fn handle(&self) -> ShmFleetView {
        self.fleet@
    }

    /// The walked lane's node, as a specification.
    pub closed spec fn node(&self) -> u16 {
        self.node_id.0
    }

    /// True when the lane can be walked.
    pub closed spec fn ready(&self) -> bool {
        &&& self.fleet.wf()
        &&& self.node_id.0 < self.fleet@.capacity
        &&& self.fleet@.walkable::<T>(self.node_id.0)
    }

    fn new(fleet: &'a ShmFleet, node_id: NodeId) -> (source: ShmLaneSource<'a, T>)
        requires
            fleet.wf(),
            node_id.0 < fleet@.capacity,
            fleet@.walkable::<T>(node_id.0),
        ensures
            source.handle() == fleet@,
            source.node() == node_id.0,
            source.ready(),
    {
        ShmLaneSource { fleet, node_id, marker: PhantomData }
    }
}

impl<'a, T: OrbitTyped> RingFrameSource for ShmLaneSource<'a, T> {
    open spec fn source_kind(&self) -> u8 {
        T::KIND
    }

    open spec fn source_head(&self) -> u64 {
        self.handle().lane_head::<T>(self.node())
    }

    open spec fn source_capacity(&self) -> usize {
        T::RING_CAPACITY
    }

    open spec fn source_frame(&self, counter: u64) -> Option<FrameView> {
        self.handle().lane_at::<T>(self.node(), counter)
    }

    open spec fn source_state(&self, counter: u64) -> ReadView {
        self.handle().lane_state::<T>(self.node(), counter)
    }

    open spec fn source_ready(&self) -> bool {
        self.ready()
    }

    fn kind(&self) -> u8 {
        T::KIND
    }

    fn head(&self) -> u64 {
        self.fleet.lane_head::<T>(self.node_id)
    }

    fn capacity(&self) -> usize {
        self.fleet.ring_capacity::<T>()
    }

    fn read_at(&self, counter: u64) -> Option<Frame> {
        self.fleet.read_lane_at::<T>(self.node_id, counter)
    }

    fn read_state_at(&self, counter: u64) -> RingRead {
        self.fleet.read_lane_state_at::<T>(self.node_id, counter)
    }
}

/// The heads of the lanes of `T`.
pub open spec fn shm_lane_heads<T: OrbitTyped>(fleet: ShmFleetView) -> Seq<u64> {
    Seq::new(fleet.capacity as nat, |node: int| fleet.lane_head::<T>(node as u16))
}

/// The lanes of `T`, as cursors walk them.
pub open spec fn shm_lanes<T: OrbitTyped>(fleet: ShmFleetView) -> spec_fn(u16) -> SourceView {
    |node: u16| fleet.lane::<T>(node)
}

impl ShmFleet {
    fn walk<T: OrbitTyped>(&self, node_id: NodeId, cursor: &mut RingCursor) -> (poll: RingPoll)
        requires
            self.wf(),
            node_id.0 < self@.capacity,
            self@.walkable::<T>(node_id.0),
        ensures
            self@.lane::<T>(node_id.0).is_poll(old(cursor)@, poll),
            final(cursor)@ == poll.to_counter,
    {
        let source = ShmLaneSource::<T>::new(self, node_id);
        assert(source_view(&source) =~= self@.lane::<T>(node_id.0)) by {
            assert(source_view(&source).states =~= self@.lane::<T>(node_id.0).states);
        }
        poll_ring(&source, cursor)
    }

    /// A cursor that starts behind every counter of `T` known now.
    pub fn cursor_at_head<T: OrbitTyped>(&self) -> (cursor: RingCursor)
        requires
            self.wf(),
        ensures
            cursor@ == self@.lane_head::<T>(self@.node),
    {
        RingCursor::from_counter(self.head::<T>())
    }

    /// A cursor that starts at counter zero.
    pub fn cursor_from_start<T: OrbitTyped>(&self) -> (cursor: RingCursor)
        ensures
            cursor@ == 0,
    {
        RingCursor::from_start()
    }

    /// Walks a cursor toward the head of this member's lane of `T`, or of the sole
    /// lane.
    pub fn poll_ring<T: OrbitTyped>(&self, cursor: &mut RingCursor) -> (poll: RingPoll)
        requires
            self.wf(),
            self@.walkable::<T>(self@.node),
        ensures
            self@.lane::<T>(self@.node).is_poll(old(cursor)@, poll),
            final(cursor)@ == poll.to_counter,
    {
        self.walk::<T>(self.node_id, cursor)
    }

    /// A cursor over every node lane of `T`, each at its current head.
    pub fn lane_cursor_at_head<T: OrbitTyped>(&self) -> (cursor: FleetLaneCursor)
        requires
            self.wf(),
            T::RING_TOPOLOGY == RingTopology::PerNode,
        ensures
            cursor@ == (LaneCursorView { positions: shm_lane_heads::<T>(self@), initial: 0 }),
    {
        let mut lanes: Vec<RingCursor> = Vec::new();
        let mut node: u16 = 0;
        while node < self.fleet_capacity
            invariant
                self.wf(),
                self.fleet_capacity == self@.capacity,
                node <= self@.capacity,
                lanes@.len() == node,
                forall|i: int|
                    0 <= i < node ==> (#[trigger] lanes@[i])@ == self@.lane_head::<T>(i as u16),
            decreases self@.capacity - node,
        {
            lanes.push(RingCursor::from_counter(self.lane_head::<T>(NodeId::new(node))));
            node = node + 1;
        }
        assert(lanes@.map_values(|cursor: RingCursor| cursor@) =~= shm_lane_heads::<T>(self@));
        FleetLaneCursor::of_lanes(lanes, 0)
    }

    /// A cursor over every node lane of `T`, each at counter zero.
    pub fn lane_cursor_from_start<T: OrbitTyped>(&self) -> (cursor: FleetLaneCursor)
        requires
            T::RING_TOPOLOGY == RingTopology::PerNode,
        ensures
            cursor@ == (LaneCursorView {
                positions: Seq::new(self@.capacity as nat, |i: int| 0u64),
                initial: 0,
            }),
    {
        let lanes = FleetLaneCursor::from_counter(0).begun(self.fleet_capacity);
        FleetLaneCursor::of_lanes(lanes, 0)
    }

    /// Walks every node lane of `T` to its head and combines the frames and the
    /// losses. Frames are ordered within a lane, not across lanes.
    pub fn poll_lanes<T: OrbitTyped>(&self, cursor: &mut FleetLaneCursor) -> (poll: FleetLanePoll)
        requires
            self.wf(),
            T::RING_TOPOLOGY == RingTopology::PerNode,
            old(cursor)@.fits(self@.capacity),
            forall|node: u16| node < self@.capacity ==> #[trigger] self@.walkable::<T>(node),
        ensures
            is_lanes_walk(
                shm_lanes::<T>(self@),
                old(cursor)@.begin(self@.capacity),
                poll,
            ),
            final(cursor)@ == (LaneCursorView {
                positions: shm_lane_heads::<T>(self@),
                initial: old(cursor)@.initial,
            }),
    {
        let ghost sources = shm_lanes::<T>(self@);
        let ghost positions = cursor@.begin(self@.capacity);
        let capacity: u16 = self.fleet_capacity;
        let mut lanes: Vec<RingCursor> = cursor.begun(capacity);
        assert(lanes@.len() == positions.len());
        assert forall|i: int| 0 <= i < capacity implies (#[trigger] lanes@[i])@ == positions[i] by {
            assert(lanes@.map_values(|cursor: RingCursor| cursor@)[i] == lanes@[i]@);
        }
        let mut combined: FleetLanePoll = FleetLanePoll::nothing();
        let mut node: u16 = 0;
        while node < capacity
            invariant
                node <= capacity,
                capacity == self@.capacity,
                self.wf(),
                T::RING_TOPOLOGY == RingTopology::PerNode,
                forall|node: u16| node < self@.capacity ==> #[trigger] self@.walkable::<T>(node),
                sources == shm_lanes::<T>(self@),
                positions.len() == capacity,
                lanes@.len() == capacity,
                forall|i: int|
                    0 <= i < node ==> (#[trigger] lanes@[i])@ == self@.lane_head::<T>(i as u16),
                forall|i: int| node <= i < capacity ==> (#[trigger] lanes@[i])@ == positions[i],
                frame_views(combined.frames@) == walks_frames(sources, positions, node as nat),
                combined.loss.overwritten == min_of(
                    walks_overwritten(sources, positions, node as nat),
                    u64::MAX as int,
                ),
                combined.loss.unavailable == min_of(
                    walks_unavailable(sources, positions, node as nat),
                    u64::MAX as int,
                ),
                0 <= walks_overwritten(sources, positions, node as nat),
                0 <= walks_unavailable(sources, positions, node as nat),
            decreases capacity - node,
        {
            let mut lane_cursor = lanes[node as usize];
            let poll = self.walk::<T>(NodeId::new(node), &mut lane_cursor);
            proof {
                lemma_walk(self@.lane::<T>(node), positions[node as int], poll);
            }
            lanes[node as usize] = lane_cursor;
            combined.absorb(poll);
            node = node + 1;
        }
        assert(lanes@.map_values(|cursor: RingCursor| cursor@) =~= shm_lane_heads::<T>(self@));
        *cursor = FleetLaneCursor::of_lanes(lanes, cursor.initial());
        combined
    }
}

} // verus!
