//! The rings of a fleet, as the services on top of them see them.
use bytes::Bytes;
use vstd::prelude::*;

use crate::fleet::cursor::{
    is_lane_poll, lane_heads, FleetLaneCursor, FleetLanePoll, LaneCursorView,
};
use crate::fleet::{Fleet, FleetView, NodeId};
use crate::id::{kind_of, NetId64};
use crate::octets::{all_octets, octets};
use crate::ring::{batch_ids, frame_view, Frame, RingTopology, RingView};
use crate::typed::{declared, OrbitTyped};

verus! {

/// A member's handle on the rings of a fleet, wherever they live.
pub trait FleetRings: Sized {
    /// What the handle holds.
    spec fn held(&self) -> FleetView;

    /// The handle's parts fit together.
    spec fn sound(&self) -> bool;

    /// What soundness says of what the handle holds.
    proof fn lemma_sound(&self)
        requires
            self.sound(),
        ensures
            self.held().wf(),
    ;

    /// How many members the fleet has room for.
    fn fleet_capacity(&self) -> (capacity: u16)
        ensures
            capacity == self.held().capacity,
    ;

    /// This member's node.
    fn node_id(&self) -> (node: NodeId)
        ensures
            node == NodeId(self.held().node),
    ;

    /// Publishes one payload on the ring of `T` and returns the frame's id.
    fn publish<T: OrbitTyped>(&mut self, frame_kind: u8, ver: u64, payload: Bytes) -> (id: NetId64)
        requires
            old(self).sound(),
            old(self).held().usable::<T>(),
            octets(payload).len() <= T::RING_PAYLOAD_CAPACITY,
        ensures
            ({
                let ring = old(self).held().ring::<T>();
                let frame = ring.next_frame(old(self).held().node, frame_kind, ver, octets(payload));
                &&& id == frame.id
                &&& final(self).held() == old(self).held().with_ring::<T>(
                    ring.append(ring.spec.lane_of(old(self).held().node), frame),
                )
            }),
            final(self).sound(),
            final(self).held().usable::<T>(),
    ;

    /// Publishes one payload on the ring of `T`, tells whoever waits on the ring, and
    /// returns the frame's id.
    fn publish_notified<T: OrbitTyped>(
        &mut self,
        frame_kind: u8,
        ver: u64,
        payload: Bytes,
    ) -> (id: NetId64)
        requires
            old(self).sound(),
            old(self).held().usable::<T>(),
            octets(payload).len() <= T::RING_PAYLOAD_CAPACITY,
        ensures
            ({
                let ring = old(self).held().ring::<T>();
                let frame = ring.next_frame(old(self).held().node, frame_kind, ver, octets(payload));
                &&& id == frame.id
                &&& final(self).held() == old(self).held().with_ring::<T>(
                    ring.append(ring.spec.lane_of(old(self).held().node), frame),
                )
            }),
            final(self).sound(),
            final(self).held().usable::<T>(),
    ;

    /// Publishes a batch on one lane of the ring of `T` and returns the frames'
    /// consecutive ids.
    fn publish_batch<T: OrbitTyped>(
        &mut self,
        frame_kind: u8,
        ver: u64,
        payloads: Vec<Bytes>,
    ) -> (ids: Vec<NetId64>)
        requires
            old(self).sound(),
            old(self).held().usable::<T>(),
            payloads@.len() <= T::RING_CAPACITY,
            forall|i: int|
                0 <= i < payloads@.len() ==> octets(#[trigger] payloads@[i]).len()
                    <= T::RING_PAYLOAD_CAPACITY,
        ensures
            ({
                let ring = old(self).held().ring::<T>();
                &&& ids@ == batch_ids(ring, old(self).held().node, payloads@.len())
                &&& final(self).held() == old(self).held().with_ring::<T>(
                    ring.append_all(old(self).held().node, frame_kind, ver, all_octets(payloads@)),
                )
            }),
            final(self).sound(),
            final(self).held().usable::<T>(),
    ;

    /// The frame with this id, when its slot has not been overwritten.
    fn read(&self, id: NetId64) -> (frame: Option<Frame>)
        requires
            self.sound(),
        ensures
            frame_view(frame) == (if self.held().rings.contains_key(kind_of(id.0)) {
                self.held().rings[kind_of(id.0)].lookup(id)
            } else {
                None
            }),
    ;

    /// Head of one node's lane of `T`.
    fn lane_head<T: OrbitTyped>(&self, node_id: NodeId) -> (head: u64)
        requires
            self.sound(),
            self.held().usable::<T>(),
            self.held().ring::<T>().serves(node_id.0),
        ensures
            head == self.held().ring::<T>().lanes[declared::<T>().lane_of(node_id.0)].head,
    ;

    /// What stands in one node lane's slot for a counter of `T`.
    fn read_lane_at<T: OrbitTyped>(&self, node_id: NodeId, counter: u64) -> (frame: Option<Frame>)
        requires
            self.sound(),
            self.held().usable::<T>(),
            self.held().ring::<T>().serves(node_id.0),
        ensures
            frame_view(frame) == self.held().ring::<T>().lanes[declared::<T>().lane_of(
                node_id.0,
            )].at(counter),
    ;

    /// Head of the ring of `T`: of this member's lane on a per-node ring, of
    /// the sole lane otherwise.
    fn head<T: OrbitTyped>(&self) -> (head: u64)
        requires
            self.sound(),
            self.held().usable::<T>(),
        ensures
            head == self.held().own_lane::<T>().head,
    ;

    /// What stands in this member's slot for a counter of `T`.
    fn read_at<T: OrbitTyped>(&self, counter: u64) -> (frame: Option<Frame>)
        requires
            self.sound(),
            self.held().usable::<T>(),
        ensures
            frame_view(frame) == self.held().own_lane::<T>().at(counter),
    ;

    /// Slots per lane of the ring of `T`.
    fn ring_capacity<T: OrbitTyped>(&self) -> (capacity: usize)
        requires
            self.sound(),
            self.held().usable::<T>(),
        ensures
            capacity == T::RING_CAPACITY,
    ;

    /// Allocates one version shared by every lane of `T`.
    fn next_ring_version<T: OrbitTyped>(&mut self) -> (version: u64)
        requires
            old(self).sound(),
            old(self).held().usable::<T>(),
            old(self).held().ring::<T>().version < u64::MAX,
        ensures
            version == old(self).held().ring::<T>().version + 1,
            final(self).held() == old(self).held().with_ring::<T>(
                RingView { version, ..old(self).held().ring::<T>() },
            ),
            final(self).sound(),
            final(self).held().usable::<T>(),
    ;

    /// The version allocated last for `T`.
    fn current_ring_version<T: OrbitTyped>(&self) -> (version: u64)
        requires
            self.sound(),
            self.held().usable::<T>(),
        ensures
            version == self.held().ring::<T>().version,
    ;

    /// Clears every lane of `T` and returns all heads and the version counter
    /// to zero.
    fn reset_ring<T: OrbitTyped>(&mut self)
        requires
            old(self).sound(),
            old(self).held().usable::<T>(),
        ensures
            final(self).held() == old(self).held().with_ring::<T>(
                RingView::blank(
                    T::KIND,
                    declared::<T>(),
                    declared::<T>().lanes_for(old(self).held().capacity) as nat,
                ),
            ),
            final(self).sound(),
            final(self).held().usable::<T>(),
    ;

    /// A cursor over every node lane of `T`, each at its current head.
    fn lane_cursor_at_head<T: OrbitTyped>(&self) -> (cursor: FleetLaneCursor)
        requires
            self.sound(),
            self.held().usable::<T>(),
            T::RING_TOPOLOGY == RingTopology::PerNode,
        ensures
            cursor@ == (LaneCursorView {
                positions: lane_heads(self.held().ring::<T>()),
                initial: 0,
            }),
            cursor@.fits(self.held().capacity),
    ;

    /// A cursor over every node lane of `T`, each at counter zero.
    fn lane_cursor_from_start<T: OrbitTyped>(&self) -> (cursor: FleetLaneCursor)
        requires
            T::RING_TOPOLOGY == RingTopology::PerNode,
        ensures
            cursor@ == (LaneCursorView {
                positions: Seq::new(self.held().capacity as nat, |i: int| 0u64),
                initial: 0,
            }),
    ;

    /// Walks every node lane of `T` to its head and combines the frames and the
    /// losses. Frames are ordered within a lane, not across lanes.
    fn poll_lanes<T: OrbitTyped>(&self, cursor: &mut FleetLaneCursor) -> (poll: FleetLanePoll)
        requires
            self.sound(),
            self.held().usable::<T>(),
            T::RING_TOPOLOGY == RingTopology::PerNode,
            old(cursor)@.fits(self.held().capacity),
        ensures
            is_lane_poll(self.held().ring::<T>(), old(cursor)@.begin(self.held().capacity), poll),
            final(cursor)@ == (LaneCursorView {
                positions: lane_heads(self.held().ring::<T>()),
                initial: old(cursor)@.initial,
            }),
            final(cursor)@.fits(self.held().capacity),
    ;
}

impl FleetRings for Fleet {
    open spec fn held(&self) -> FleetView {
        self@
    }

    open spec fn sound(&self) -> bool {
        self.wf()
    }

    proof fn lemma_sound(&self) {
        self.lemma_wf();
    }

    fn fleet_capacity(&self) -> (capacity: u16) {
        Fleet::fleet_capacity(self)
    }

    fn node_id(&self) -> (node: NodeId) {
        Fleet::node_id(self)
    }

    fn publish<T: OrbitTyped>(
        &mut self,
        frame_kind: u8,
        ver: u64,
        payload: Bytes,
    ) -> (id: NetId64) {
        Fleet::publish::<T>(self, frame_kind, ver, payload)
    }

    fn publish_notified<T: OrbitTyped>(
        &mut self,
        frame_kind: u8,
        ver: u64,
        payload: Bytes,
    ) -> (id: NetId64) {
        Fleet::publish_notified::<T>(self, frame_kind, ver, payload)
    }

    fn publish_batch<T: OrbitTyped>(
        &mut self,
        frame_kind: u8,
        ver: u64,
        payloads: Vec<Bytes>,
    ) -> (ids: Vec<NetId64>) {
        Fleet::publish_batch::<T>(self, frame_kind, ver, payloads)
    }

    fn read(&self, id: NetId64) -> (frame: Option<Frame>) {
        Fleet::read(self, id)
    }

    fn lane_head<T: OrbitTyped>(&self, node_id: NodeId) -> (head: u64) {
        Fleet::lane_head::<T>(self, node_id)
    }

    fn read_lane_at<T: OrbitTyped>(&self, node_id: NodeId, counter: u64) -> (frame: Option<Frame>) {
        Fleet::read_lane_at::<T>(self, node_id, counter)
    }

    fn head<T: OrbitTyped>(&self) -> (head: u64) {
        Fleet::head::<T>(self)
    }

    fn read_at<T: OrbitTyped>(&self, counter: u64) -> (frame: Option<Frame>) {
        Fleet::read_at::<T>(self, counter)
    }

    fn ring_capacity<T: OrbitTyped>(&self) -> (capacity: usize) {
        Fleet::ring_capacity::<T>(self)
    }

    fn next_ring_version<T: OrbitTyped>(&mut self) -> (version: u64) {
        Fleet::next_ring_version::<T>(self)
    }

    fn current_ring_version<T: OrbitTyped>(&self) -> (version: u64) {
        Fleet::current_ring_version::<T>(self)
    }

    fn reset_ring<T: OrbitTyped>(&mut self) {
        Fleet::reset_ring::<T>(self)
    }

    fn lane_cursor_at_head<T: OrbitTyped>(&self) -> (cursor: FleetLaneCursor) {
        Fleet::lane_cursor_at_head::<T>(self)
    }

    fn lane_cursor_from_start<T: OrbitTyped>(&self) -> (cursor: FleetLaneCursor) {
        Fleet::lane_cursor_from_start::<T>(self)
    }

    fn poll_lanes<T: OrbitTyped>(&self, cursor: &mut FleetLaneCursor) -> (poll: FleetLanePoll) {
        Fleet::poll_lanes::<T>(self, cursor)
    }
}

} // verus!
