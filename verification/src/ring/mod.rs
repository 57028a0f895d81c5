//! Ring buffers: the substrate every other structure reduces to.
//!
//! A ring is one or more fixed-size circular lanes of frames. When a lane's
//! head exceeds the capacity, the oldest frame of that lane is overwritten.
//! Shared and shared-ordered rings have one lane; per-node rings give every
//! fleet member a lane of its own.
use bytes::Bytes;
use vstd::arithmetic::power2::is_pow2;
use vstd::prelude::*;
use vstd::string::*;

use crate::decimal::{digits, push_number};
use crate::id::{counter_of, kind_of, node_of, NetId64};
use crate::node::NodeId;
use crate::numbers::{is_power_of_two, successor};
use crate::octets;
use crate::octets::{all_octets, octets};
use crate::ring::cursor::{ReadView, RingFrameSource, RingRead};
use crate::typed::{declared, ring_spec, OrbitTyped};

pub mod cursor;
pub mod laws;
pub mod registry;
pub mod shm;

verus! {

/// Writer ownership of the lanes of one ring.
#[derive(Clone, Copy, Debug, PartialEq, Eq, Structural)]
pub enum RingTopology {
    /// Every fleet member publishes into one shared multi-writer sequence.
    Shared,
    /// Every fleet member owns an independent writer lane.
    PerNode,
    /// Every fleet member publishes into one globally ordered sequence.
    SharedOrdered,
}

impl RingTopology {
    /// The byte that stands for the topology in a segment header.
    pub open spec fn code(self) -> u8 {
        match self {
            RingTopology::Shared => 0,
            RingTopology::PerNode => 1,
            RingTopology::SharedOrdered => 2,
        }
    }

    /// The byte that stands for the topology in a segment header.
    pub fn to_code(self) -> (code: u8)
        ensures
            code == self.code(),
    {
        match self {
            RingTopology::Shared => 0,
            RingTopology::PerNode => 1,
            RingTopology::SharedOrdered => 2,
        }
    }
}

/// Physical policy of one ring: part of the wire contract of its kind.
#[derive(Clone, Copy, Debug, PartialEq, Eq, Structural)]
pub struct RingSpec {
    /// Number of slots retained by each lane.
    pub capacity: usize,
    /// Largest payload stored in a slot.
    pub payload_capacity: usize,
    /// How writers own and publish lanes.
    pub topology: RingTopology,
}

impl RingSpec {
    /// One shared multi-writer lane.
    pub fn new(capacity: usize, payload_capacity: usize) -> (spec: RingSpec)
        ensures
            spec == (RingSpec { capacity, payload_capacity, topology: RingTopology::Shared }),
    {
        RingSpec { capacity, payload_capacity, topology: RingTopology::Shared }
    }

    /// One independent writer lane per fleet node.
    pub fn per_node(capacity: usize, payload_capacity: usize) -> (spec: RingSpec)
        ensures
            spec == (RingSpec { capacity, payload_capacity, topology: RingTopology::PerNode }),
    {
        RingSpec { capacity, payload_capacity, topology: RingTopology::PerNode }
    }

    /// One globally ordered writer lane.
    pub fn shared_ordered(capacity: usize, payload_capacity: usize) -> (spec: RingSpec)
        ensures
            spec == (RingSpec {
                capacity,
                payload_capacity,
                topology: RingTopology::SharedOrdered,
            }),
    {
        RingSpec { capacity, payload_capacity, topology: RingTopology::SharedOrdered }
    }

    /// A usable geometry: a power-of-two capacity and payloads whose length
    /// fits thirty-two bits.
    pub open spec fn valid(self) -> bool {
        &&& self.capacity > 0
        &&& is_pow2(self.capacity as int)
        &&& self.payload_capacity <= u32::MAX
    }

    /// True when the geometry is usable.
    pub fn is_valid(self) -> (valid: bool)
        ensures
            valid == self.valid(),
    {
        self.capacity > 0 && is_power_of_two(self.capacity) && self.payload_capacity
            <= 0xffff_ffff
    }

    /// How many lanes a fleet of this many members needs.
    pub open spec fn lanes_for(self, fleet_capacity: u16) -> int {
        match self.topology {
            RingTopology::PerNode => fleet_capacity as int,
            RingTopology::Shared | RingTopology::SharedOrdered => 1,
        }
    }

    /// Which lane a node's frames go to.
    pub open spec fn lane_of(self, node: u16) -> int {
        match self.topology {
            RingTopology::PerNode => node as int,
            RingTopology::Shared | RingTopology::SharedOrdered => 0,
        }
    }
}

/// One record in a ring.
#[derive(Debug, PartialEq, Eq)]
pub struct Frame {
    /// Identifier minted by the writer.
    pub id: NetId64,
    /// Message class.
    pub kind: u8,
    /// Version or tick, chosen by the writer.
    pub ver: u64,
    /// The payload bytes.
    pub payload: Bytes,
}

/// What a frame says.
pub struct FrameView {
    pub id: NetId64,
    pub kind: u8,
    pub ver: u64,
    pub payload: Seq<u8>,
}

impl View for Frame {
    type V = FrameView;

    open spec fn view(&self) -> FrameView {
        FrameView { id: self.id, kind: self.kind, ver: self.ver, payload: octets(self.payload) }
    }
}

impl Clone for Frame {
    fn clone(&self) -> (copy: Frame)
        ensures
            copy@ == self@,
    {
        Frame {
            id: self.id,
            kind: self.kind,
            ver: self.ver,
            payload: octets::duplicate(&self.payload),
        }
    }
}

/// What an optional frame says.
pub open spec fn frame_view(frame: Option<Frame>) -> Option<FrameView> {
    match frame {
        Some(frame) => Some(frame@),
        None => None,
    }
}

/// What each frame of a sequence says.
pub open spec fn frame_views(frames: Seq<Frame>) -> Seq<FrameView> {
    frames.map_values(|frame: Frame| frame@)
}

fn copy_frame(frame: &Option<Frame>) -> (copy: Option<Frame>)
    ensures
        frame_view(copy) == frame_view(*frame),
{
    match frame {
        Some(frame) => Some(frame.clone()),
        None => None,
    }
}

/// One circular lane.
struct RingLane {
    write_pos: u64,
    slots: Vec<Option<Frame>>,
}

/// What a lane holds: the next counter to be written, and what stands in each
/// slot.
#[verifier::ext_equal]
pub struct LaneView {
    pub head: u64,
    pub slots: Seq<Option<FrameView>>,
}

impl LaneView {
    /// A lane of this many slots that nothing was written to.
    pub open spec fn blank(capacity: nat) -> LaneView {
        LaneView { head: 0, slots: Seq::new(capacity, |i: int| None) }
    }

    /// The slot that a counter falls into.
    pub open spec fn slot_of(self, counter: u64) -> int {
        counter as int % self.slots.len() as int
    }

    /// What stands in the slot that a counter falls into.
    pub open spec fn at(self, counter: u64) -> Option<FrameView> {
        self.slots[self.slot_of(counter)]
    }

    /// The lane after one frame was appended.
    pub open spec fn append(self, frame: FrameView) -> LaneView {
        LaneView {
            head: successor(self.head),
            slots: self.slots.update(self.slot_of(self.head), Some(frame)),
        }
    }
}

impl RingLane {
    closed spec fn lane_view(&self) -> LaneView {
        LaneView {
            head: self.write_pos,
            slots: self.slots@.map_values(|slot: Option<Frame>| frame_view(slot)),
        }
    }

    fn new(capacity: usize) -> (lane: RingLane)
        ensures
            lane.lane_view() == LaneView::blank(capacity as nat),
    {
        let mut slots: Vec<Option<Frame>> = Vec::new();
        while slots.len() < capacity
            invariant
                slots@.len() <= capacity,
                forall|i: int| 0 <= i < slots@.len() ==> slots@[i] is None,
            decreases capacity - slots@.len(),
        {
            slots.push(None);
        }
        let lane = RingLane { write_pos: 0, slots };
        assert(lane.lane_view().slots =~= LaneView::blank(capacity as nat).slots);
        lane
    }
}

/// What a ring holds.
#[verifier::ext_equal]
pub struct RingView {
    pub kind: u8,
    pub spec: RingSpec,
    pub version: u64,
    pub lanes: Seq<LaneView>,
}

impl RingView {
    /// A ring of this kind and geometry that nothing was written to.
    pub open spec fn blank(kind: u8, spec: RingSpec, lanes: nat) -> RingView {
        RingView {
            kind,
            spec,
            version: 0,
            lanes: Seq::new(lanes, |i: int| LaneView::blank(spec.capacity as nat)),
        }
    }

    /// The ring after one frame was appended to a lane.
    pub open spec fn append(self, lane: int, frame: FrameView) -> RingView {
        RingView { lanes: self.lanes.update(lane, self.lanes[lane].append(frame)), ..self }
    }

    /// The ring after the frame of a counter was committed to its slot. The lane's
    /// head stays.
    pub open spec fn commit(self, lane: int, counter: u64, frame: FrameView) -> RingView {
        let place = self.lanes[lane].slot_of(counter);
        RingView {
            lanes: self.lanes.update(
                lane,
                LaneView {
                    slots: self.lanes[lane].slots.update(place, Some(frame)),
                    ..self.lanes[lane]
                },
            ),
            ..self
        }
    }

    /// The ring after the head of a lane was moved.
    pub open spec fn moved(self, lane: int, head: u64) -> RingView {
        RingView { lanes: self.lanes.update(lane, LaneView { head, ..self.lanes[lane] }), ..self }
    }

    /// The frame that a node's write of this content makes at a counter.
    pub open spec fn frame_at(
        self,
        node: u16,
        counter: u64,
        frame_kind: u8,
        ver: u64,
        payload: Seq<u8>,
    ) -> FrameView {
        FrameView { id: NetId64::of(self.kind, node, counter), kind: frame_kind, ver, payload }
    }

    /// The ring after the frames of these payloads were committed, from the counter
    /// `start` on. The lane's head stays.
    pub open spec fn commit_all(
        self,
        node: u16,
        frame_kind: u8,
        ver: u64,
        start: u64,
        payloads: Seq<Seq<u8>>,
    ) -> RingView
        decreases payloads.len(),
    {
        if payloads.len() == 0 {
            self
        } else {
            let counter = nth_head(start, (payloads.len() - 1) as nat);
            self.commit_all(node, frame_kind, ver, start, payloads.drop_last()).commit(
                self.spec.lane_of(node),
                counter,
                self.frame_at(node, counter, frame_kind, ver, payloads.last()),
            )
        }
    }

    /// The frame that a node's next write of this content makes.
    pub open spec fn next_frame(
        self,
        node: u16,
        frame_kind: u8,
        ver: u64,
        payload: Seq<u8>,
    ) -> FrameView {
        FrameView {
            id: NetId64::of(self.kind, node, self.lanes[self.spec.lane_of(node)].head),
            kind: frame_kind,
            ver,
            payload,
        }
    }

    /// The ring after a node wrote these payloads one after the other.
    pub open spec fn append_all(
        self,
        node: u16,
        frame_kind: u8,
        ver: u64,
        payloads: Seq<Seq<u8>>,
    ) -> RingView
        decreases payloads.len(),
    {
        if payloads.len() == 0 {
            self
        } else {
            let before = self.append_all(node, frame_kind, ver, payloads.drop_last());
            before.append(
                self.spec.lane_of(node),
                before.next_frame(node, frame_kind, ver, payloads.last()),
            )
        }
    }

    /// The most recent frame of a lane, when anything was written to it.
    pub open spec fn latest(self, lane: int) -> Option<FrameView> {
        let head = self.lanes[lane].head;
        if head == 0 {
            None
        } else {
            self.lanes[lane].at((head - 1) as u64)
        }
    }

    /// True when the node writes to one of the ring's lanes.
    pub open spec fn serves(self, node: u16) -> bool {
        self.spec.lane_of(node) < self.lanes.len()
    }

    /// What the slot addressed by an id holds, when it is that id's frame.
    pub open spec fn lookup(self, id: NetId64) -> Option<FrameView> {
        if kind_of(id.0) != self.kind || !self.serves(node_of(id.0)) {
            None
        } else {
            let found = self.lanes[self.spec.lane_of(node_of(id.0))].at(counter_of(id.0));
            match found {
                Some(frame) => if frame.id == id {
                    Some(frame)
                } else {
                    None
                },
                None => None,
            }
        }
    }

    /// What a walking reader finds at a counter of a lane whose head counts
    /// claimed positions.
    pub open spec fn claimed_state(self, lane: int, counter: u64) -> ReadView {
        match self.lanes[lane].at(counter) {
            Some(frame) => if counter_of(frame.id.0) == counter {
                ReadView::Ready(frame)
            } else if counter_of(frame.id.0) > counter {
                ReadView::Unavailable
            } else {
                ReadView::Pending
            },
            None => ReadView::Pending,
        }
    }

    /// What a walking reader finds at a counter of a node's lane.
    pub open spec fn lane_state(self, node: u16, counter: u64) -> ReadView {
        let state = self.claimed_state(self.spec.lane_of(node), counter);
        if state is Pending && self.spec.topology != RingTopology::Shared {
            ReadView::Unavailable
        } else {
            state
        }
    }

    /// A geometry that can be used, and lanes that fit it.
    pub open spec fn wf(self) -> bool {
        &&& self.spec.valid()
        &&& 0 < self.lanes.len() <= u16::MAX
        &&& self.spec.topology != RingTopology::PerNode ==> self.lanes.len() == 1
        &&& forall|i: int|
            0 <= i < self.lanes.len() ==> (#[trigger] self.lanes[i]).slots.len()
                == self.spec.capacity
    }
}

/// A fixed-capacity append-only log of one kind.
pub struct Ring {
    kind: u8,
    capacity: usize,
    payload_capacity: usize,
    topology: RingTopology,
    version_counter: u64,
    lanes: Vec<RingLane>,
}

impl View for Ring {
    type V = RingView;

    closed spec fn view(&self) -> RingView {
        RingView {
            kind: self.kind,
            spec: RingSpec {
                capacity: self.capacity,
                payload_capacity: self.payload_capacity,
                topology: self.topology,
            },
            version: self.version_counter,
            lanes: self.lanes@.map_values(|lane: RingLane| lane.lane_view()),
        }
    }
}

impl Ring {
    /// The ring that `T` declares, for a single-member fleet.
    pub fn new<T: OrbitTyped>() -> (ring: Ring)
        requires
            declared::<T>().valid(),
        ensures
            ring@ == RingView::blank(T::KIND, declared::<T>(), 1),
            ring@.wf(),
    {
        Ring::new_for_fleet::<T>(1)
    }

    /// The ring that `T` declares, with the lanes that a fleet of this many
    /// members needs.
    pub fn new_for_fleet<T: OrbitTyped>(fleet_capacity: u16) -> (ring: Ring)
        requires
            fleet_capacity > 0,
            declared::<T>().valid(),
        ensures
            ring@ == RingView::blank(
                T::KIND,
                declared::<T>(),
                declared::<T>().lanes_for(fleet_capacity) as nat,
            ),
            ring@.wf(),
    {
        let spec = ring_spec::<T>();
        let lane_count: usize = match spec.topology {
            RingTopology::Shared | RingTopology::SharedOrdered => 1,
            RingTopology::PerNode => fleet_capacity as usize,
        };
        let mut lanes: Vec<RingLane> = Vec::new();
        while lanes.len() < lane_count
            invariant
                lanes@.len() <= lane_count,
                forall|i: int|
                    0 <= i < lanes@.len() ==> (#[trigger] lanes@[i]).lane_view()
                        == LaneView::blank(spec.capacity as nat),
            decreases lane_count - lanes@.len(),
        {
            lanes.push(RingLane::new(spec.capacity));
        }
        let ring = Ring {
            kind: T::KIND,
            capacity: spec.capacity,
            payload_capacity: spec.payload_capacity,
            topology: spec.topology,
            version_counter: 0,
            lanes,
        };
        assert(ring@.lanes =~= RingView::blank(T::KIND, spec, lane_count as nat).lanes);
        ring
    }

    /// The kind this ring carries.
    pub fn kind(&self) -> (kind: u8)
        ensures
            kind == self@.kind,
    {
        self.kind
    }

    /// Slots per lane.
    pub fn capacity(&self) -> (capacity: usize)
        ensures
            capacity == self@.spec.capacity,
    {
        self.capacity
    }

    /// Largest payload of a slot.
    pub fn payload_capacity(&self) -> (payload_capacity: usize)
        ensures
            payload_capacity == self@.spec.payload_capacity,
    {
        self.payload_capacity
    }

    /// The ring's geometry.
    pub fn spec(&self) -> (spec: RingSpec)
        ensures
            spec == self@.spec,
    {
        RingSpec {
            capacity: self.capacity,
            payload_capacity: self.payload_capacity,
            topology: self.topology,
        }
    }

    /// Head of the sole lane, or of lane zero of a per-node ring.
    pub fn head(&self) -> (head: u64)
        requires
            self@.wf(),
        ensures
            head == self@.lanes[0].head,
    {
        assert(self@.lanes[0] == self.lanes@[0].lane_view());
        self.lanes[0].write_pos
    }

    /// Number of lanes.
    pub fn lane_count(&self) -> (count: usize)
        ensures
            count == self@.lanes.len(),
    {
        self.lanes.len()
    }

    fn lane_index(&self, node_id: NodeId) -> (index: usize)
        requires
            self@.serves(node_id.0),
        ensures
            index == self@.spec.lane_of(node_id.0),
            index < self.lanes@.len(),
    {
        match self.topology {
            RingTopology::Shared | RingTopology::SharedOrdered => 0,
            RingTopology::PerNode => node_id.0 as usize,
        }
    }

    /// Head of a node's lane.
    pub fn lane_head(&self, node_id: NodeId) -> (head: u64)
        requires
            self@.serves(node_id.0),
        ensures
            head == self@.lanes[self@.spec.lane_of(node_id.0)].head,
    {
        let index: usize = self.lane_index(node_id);
        assert(self@.lanes[index as int] == self.lanes@[index as int].lane_view());
        self.lanes[index].write_pos
    }

    /// Allocates one non-zero version, shared by every lane and independent of
    /// the positions in them.
    pub fn next_version(&mut self) -> (version: u64)
        requires
            old(self)@.version < u64::MAX,
        ensures
            version == old(self)@.version + 1,
            final(self)@ == (RingView { version, ..old(self)@ }),
    {
        self.version_counter = self.version_counter + 1;
        self.version_counter
    }

    /// The version allocated last.
    pub fn current_version(&self) -> (version: u64)
        ensures
            version == self@.version,
    {
        self.version_counter
    }

    fn slot_index(&self, counter: u64) -> (index: usize)
        requires
            self@.wf(),
        ensures
            index == counter as int % self@.spec.capacity as int,
            index < self@.spec.capacity,
    {
        let index: u64 = counter % (self.capacity as u64);
        index as usize
    }

    fn read_slot(&self, lane: usize, counter: u64) -> (frame: Option<Frame>)
        requires
            self@.wf(),
            lane < self@.lanes.len(),
        ensures
            frame_view(frame) == self@.lanes[lane as int].at(counter),
    {
        let index: usize = self.slot_index(counter);
        assert(self@.lanes[lane as int] == self.lanes@[lane as int].lane_view());
        copy_frame(&self.lanes[lane].slots[index])
    }

    /// Commits a frame to the slot of a counter. The lane's head stays.
    fn commit_frame(
        &mut self,
        lane: usize,
        node_id: NodeId,
        counter: u64,
        frame_kind: u8,
        ver: u64,
        payload: Bytes,
    ) -> (id: NetId64)
        requires
            old(self)@.wf(),
            lane == old(self)@.spec.lane_of(node_id.0),
            old(self)@.serves(node_id.0),
        ensures
            id == NetId64::of(old(self)@.kind, node_id.0, counter),
            final(self)@ == old(self)@.commit(
                lane as int,
                counter,
                old(self)@.frame_at(node_id.0, counter, frame_kind, ver, octets(payload)),
            ),
            final(self)@.wf(),
    {
        let ghost before = self@;
        let ghost lanes = self.lanes@;
        assert(before.lanes[lane as int] == lanes[lane as int].lane_view());
        let id = NetId64::make(self.kind, node_id.0, counter);
        let index: usize = self.slot_index(counter);
        let frame = Frame { id, kind: frame_kind, ver, payload };
        let ghost view = frame@;
        let place: &mut RingLane = &mut self.lanes[lane];
        place.slots[index] = Some(frame);
        proof {
            assert(self.lanes@[lane as int].lane_view().slots =~= before.commit(
                lane as int,
                counter,
                view,
            ).lanes[lane as int].slots);
            assert(self@.lanes =~= before.commit(lane as int, counter, view).lanes);
        }
        id
    }

    /// Moves the head of a lane.
    fn store_head(&mut self, lane: usize, head: u64)
        requires
            old(self)@.wf(),
            lane < old(self)@.lanes.len(),
        ensures
            final(self)@ == old(self)@.moved(lane as int, head),
            final(self)@.wf(),
    {
        let ghost before = self@;
        assert(before.lanes[lane as int] == self.lanes@[lane as int].lane_view());
        let place: &mut RingLane = &mut self.lanes[lane];
        place.write_pos = head;
        assert(self@.lanes =~= before.moved(lane as int, head).lanes);
    }

    /// Appends a frame: takes the next counter, mints the id and stores the
    /// frame in the counter's slot.
    pub fn write(&mut self, node_id: NodeId, frame_kind: u8, ver: u64, payload: Bytes) -> (id:
        NetId64)
        requires
            old(self)@.wf(),
            old(self)@.serves(node_id.0),
            octets(payload).len() <= old(self)@.spec.payload_capacity,
        ensures
            id == old(self)@.next_frame(node_id.0, frame_kind, ver, octets(payload)).id,
            final(self)@ == old(self)@.append(
                old(self)@.spec.lane_of(node_id.0),
                old(self)@.next_frame(node_id.0, frame_kind, ver, octets(payload)),
            ),
            final(self)@.wf(),
    {
        let lane: usize = self.lane_index(node_id);
        let ghost before = self@;
        let ghost frame = before.next_frame(node_id.0, frame_kind, ver, octets(payload));
        let counter: u64 = self.lane_head(node_id);
        let id = if self.topology == RingTopology::Shared {
            self.store_head(lane, counter.wrapping_add(1));
            self.commit_frame(lane, node_id, counter, frame_kind, ver, payload)
        } else {
            let id = self.commit_frame(lane, node_id, counter, frame_kind, ver, payload);
            self.store_head(lane, counter.wrapping_add(1));
            id
        };
        assert(self@.lanes =~= before.append(lane as int, frame).lanes);
        id
    }

    /// Commits the frames of these payloads, from the counter `start` on, and
    /// returns their ids. No head moves: a reader of a lane whose head counts
    /// commits sees none of the frames yet.
    fn commit_batch(
        &mut self,
        node_id: NodeId,
        frame_kind: u8,
        ver: u64,
        start: u64,
        payloads: &Vec<Bytes>,
    ) -> (ids: Vec<NetId64>)
        requires
            old(self)@.wf(),
            old(self)@.serves(node_id.0),
        ensures
            final(self)@ == old(self)@.commit_all(
                node_id.0,
                frame_kind,
                ver,
                start,
                all_octets(payloads@),
            ),
            final(self)@.wf(),
            ids@ == Seq::new(
                payloads@.len(),
                |i: int| NetId64::of(old(self)@.kind, node_id.0, nth_head(start, i as nat)),
            ),
    {
        let lane: usize = self.lane_index(node_id);
        let mut ids: Vec<NetId64> = Vec::new();
        let mut counter: u64 = start;
        let mut next: usize = 0;
        let ghost before = self@;
        assert(all_octets(payloads@).subrange(0, 0) =~= Seq::<Seq<u8>>::empty());
        while next < payloads.len()
            invariant
                before == old(self)@,
                next <= payloads@.len(),
                self@.wf(),
                self@.spec == before.spec,
                self@.kind == before.kind,
                self@.serves(node_id.0),
                lane == self@.spec.lane_of(node_id.0),
                counter == nth_head(start, next as nat),
                self@ == before.commit_all(
                    node_id.0,
                    frame_kind,
                    ver,
                    start,
                    all_octets(payloads@).subrange(0, next as int),
                ),
                ids@ == Seq::new(
                    next as nat,
                    |i: int| NetId64::of(before.kind, node_id.0, nth_head(start, i as nat)),
                ),
            decreases payloads@.len() - next,
        {
            let payload = octets::duplicate(&payloads[next]);
            let ghost prefix = all_octets(payloads@).subrange(0, next + 1);
            let id = self.commit_frame(lane, node_id, counter, frame_kind, ver, payload);
            ids.push(id);
            proof {
                lemma_nth_head(start, next as nat);
            }
            counter = counter.wrapping_add(1);
            next = next + 1;
            proof {
                assert(prefix.drop_last() =~= all_octets(payloads@).subrange(0, next - 1));
                assert(prefix.last() == octets(payloads@[next - 1]));
                assert(ids@ =~= Seq::new(
                    next as nat,
                    |i: int| NetId64::of(before.kind, node_id.0, nth_head(start, i as nat)),
                ));
            }
        }
        assert(all_octets(payloads@).subrange(0, payloads@.len() as int) =~= all_octets(payloads@));
        ids
    }

    /// Appends a batch to one lane and returns its consecutive ids. A batch
    /// larger than the ring is left out: its first frames could not remain
    /// readable. The head of a lane whose head counts commits moves once, when the
    /// whole batch is committed.
    pub fn write_batch(
        &mut self,
        node_id: NodeId,
        frame_kind: u8,
        ver: u64,
        payloads: Vec<Bytes>,
    ) -> (ids: Vec<NetId64>)
        requires
            old(self)@.wf(),
            old(self)@.serves(node_id.0),
            payloads@.len() <= old(self)@.spec.capacity,
            forall|i: int|
                0 <= i < payloads@.len() ==> octets(#[trigger] payloads@[i]).len()
                    <= old(self)@.spec.payload_capacity,
        ensures
            final(self)@ == old(self)@.append_all(
                node_id.0,
                frame_kind,
                ver,
                all_octets(payloads@),
            ),
            final(self)@.wf(),
            ids@ == batch_ids(old(self)@, node_id.0, payloads@.len()),
    {
        let lane: usize = self.lane_index(node_id);
        let start: u64 = self.lane_head(node_id);
        let end: u64 = start.wrapping_add(payloads.len() as u64);
        proof {
            lemma_append_all(self@, node_id.0, frame_kind, ver, all_octets(payloads@));
            lemma_commits_and_moves(
                self@,
                node_id.0,
                frame_kind,
                ver,
                start,
                all_octets(payloads@),
                end,
            );
            lemma_nth_is_sum(start, payloads@.len() as u64);
        }
        let ids = if self.topology == RingTopology::Shared {
            self.store_head(lane, end);
            self.commit_batch(node_id, frame_kind, ver, start, &payloads)
        } else {
            let ids = self.commit_batch(node_id, frame_kind, ver, start, &payloads);
            self.store_head(lane, end);
            ids
        };
        assert(ids@ =~= batch_ids(old(self)@, node_id.0, payloads@.len()));
        ids
    }

    /// The frame with this id, when its slot has not been overwritten.
    pub fn read(&self, id: NetId64) -> (frame: Option<Frame>)
        requires
            self@.wf(),
        ensures
            frame_view(frame) == self@.lookup(id),
    {
        if id.kind() != self.kind {
            return None;
        }
        let lane: usize = match self.topology {
            RingTopology::Shared | RingTopology::SharedOrdered => 0,
            RingTopology::PerNode => id.node() as usize,
        };
        if lane >= self.lanes.len() {
            return None;
        }
        let found = self.read_slot(lane, id.counter());
        match found {
            Some(frame) => if frame.id == id {
                Some(frame)
            } else {
                None
            },
            None => None,
        }
    }

    /// The most recent frame of lane zero.
    pub fn read_head(&self) -> (frame: Option<Frame>)
        requires
            self@.wf(),
        ensures
            frame_view(frame) == self@.latest(0),
    {
        let head: u64 = self.head();
        if head == 0 {
            return None;
        }
        self.read_slot(0, head - 1)
    }

    /// What stands in lane zero's slot for a counter, whichever counter wrote
    /// it.
    pub fn read_at(&self, counter: u64) -> (frame: Option<Frame>)
        requires
            self@.wf(),
        ensures
            frame_view(frame) == self@.lanes[0].at(counter),
    {
        self.read_slot(0, counter)
    }

    /// What a walking reader finds at a counter of lane zero.
    pub fn read_state_at(&self, counter: u64) -> (read: RingRead)
        requires
            self@.wf(),
        ensures
            read@ == self@.claimed_state(0, counter),
    {
        classify(self.read_at(counter), counter)
    }

    /// What stands in the slot of a node's lane for a counter.
    pub fn read_lane_at(&self, node_id: NodeId, counter: u64) -> (frame: Option<Frame>)
        requires
            self@.wf(),
            self@.serves(node_id.0),
        ensures
            frame_view(frame) == self@.lanes[self@.spec.lane_of(node_id.0)].at(counter),
    {
        let lane: usize = self.lane_index(node_id);
        self.read_slot(lane, counter)
    }

    /// What a walking reader finds at a counter of a node's lane. A lane whose
    /// head counts committed frames has no counter in flight.
    pub fn read_lane_state_at(&self, node_id: NodeId, counter: u64) -> (read: RingRead)
        requires
            self@.wf(),
            self@.serves(node_id.0),
        ensures
            read@ == self@.lane_state(node_id.0, counter),
    {
        let read = classify(self.read_lane_at(node_id, counter), counter);
        match read {
            RingRead::Pending => if self.topology != RingTopology::Shared {
                RingRead::Unavailable
            } else {
                RingRead::Pending
            },
            RingRead::Ready(frame) => RingRead::Ready(frame),
            RingRead::Unavailable => RingRead::Unavailable,
        }
    }

    /// Clears every slot and returns every lane head and the version counter to
    /// zero.
    pub fn reset(&mut self)
        requires
            old(self)@.wf(),
        ensures
            final(self)@ == RingView::blank(
                old(self)@.kind,
                old(self)@.spec,
                old(self)@.lanes.len(),
            ),
            final(self)@.wf(),
    {
        let lane_count: usize = self.lanes.len();
        let ghost before = self@;
        let mut index: usize = 0;
        while index < lane_count
            invariant
                index <= lane_count,
                lane_count == self.lanes@.len(),
                self@.kind == before.kind,
                self@.spec == before.spec,
                forall|i: int|
                    0 <= i < index ==> (#[trigger] self.lanes@[i]).lane_view() == LaneView::blank(
                        before.spec.capacity as nat,
                    ),
            decreases lane_count - index,
        {
            self.lanes[index] = RingLane::new(self.capacity);
            index = index + 1;
        }
        self.version_counter = 0;
        assert(self@.lanes =~= RingView::blank(before.kind, before.spec, before.lanes.len()).lanes);
    }
}

fn classify(found: Option<Frame>, counter: u64) -> (read: RingRead)
    ensures
        read@ == (match frame_view(found) {
            Some(frame) => if counter_of(frame.id.0) == counter {
                ReadView::Ready(frame)
            } else if counter_of(frame.id.0) > counter {
                ReadView::Unavailable
            } else {
                ReadView::Pending
            },
            None => ReadView::Pending,
        }),
{
    match found {
        Some(frame) => {
            let stored: u64 = frame.id.counter();
            if stored == counter {
                RingRead::Ready(frame)
            } else if stored > counter {
                RingRead::Unavailable
            } else {
                RingRead::Pending
            }
        },
        None => RingRead::Pending,
    }
}

/// The head of a lane after `count` more frames.
pub open spec fn nth_head(head: u64, count: nat) -> u64
    decreases count,
{
    if count == 0 {
        head
    } else {
        successor(nth_head(head, (count - 1) as nat))
    }
}

proof fn lemma_nth_head(head: u64, count: nat)
    ensures
        nth_head(head, count + 1) == successor(nth_head(head, count)),
{
}

proof fn lemma_nth_is_sum(head: u64, count: u64)
    ensures
        nth_head(head, count as nat) == head.wrapping_add(count),
    decreases count,
{
    if count > 0 {
        lemma_nth_is_sum(head, (count - 1) as u64);
    }
}

/// Moving the head of a lane and committing frames to it can be done in either
/// order.
pub proof fn lemma_commits_and_moves(
    ring: RingView,
    node: u16,
    frame_kind: u8,
    ver: u64,
    start: u64,
    payloads: Seq<Seq<u8>>,
    head: u64,
)
    requires
        ring.serves(node),
    ensures
        ({
            let lane = ring.spec.lane_of(node);
            let committed = ring.commit_all(node, frame_kind, ver, start, payloads);
            &&& ring.moved(lane, head).commit_all(node, frame_kind, ver, start, payloads)
                == committed.moved(lane, head)
            &&& committed.kind == ring.kind
            &&& committed.spec == ring.spec
            &&& committed.lanes.len() == ring.lanes.len()
            &&& forall|l: int|
                0 <= l < ring.lanes.len() ==> (#[trigger] committed.lanes[l]).head
                    == ring.lanes[l].head
            &&& committed.version == ring.version
        }),
    decreases payloads.len(),
{
    let lane = ring.spec.lane_of(node);
    if payloads.len() > 0 {
        let shorter = payloads.drop_last();
        lemma_commits_and_moves(ring, node, frame_kind, ver, start, shorter, head);
        let before = ring.commit_all(node, frame_kind, ver, start, shorter);
        let counter = nth_head(start, (payloads.len() - 1) as nat);
        let frame = ring.frame_at(node, counter, frame_kind, ver, payloads.last());
        assert(before.moved(lane, head).commit(lane, counter, frame).lanes =~= before.commit(
            lane,
            counter,
            frame,
        ).moved(lane, head).lanes);
    }
}

/// To append payloads one after the other is to commit them all, and then to move
/// the head past them.
pub proof fn lemma_append_all(
    ring: RingView,
    node: u16,
    frame_kind: u8,
    ver: u64,
    payloads: Seq<Seq<u8>>,
)
    requires
        ring.serves(node),
    ensures
        ({
            let lane = ring.spec.lane_of(node);
            let head = ring.lanes[lane].head;
            ring.append_all(node, frame_kind, ver, payloads) == ring.commit_all(
                node,
                frame_kind,
                ver,
                head,
                payloads,
            ).moved(lane, nth_head(head, payloads.len()))
        }),
    decreases payloads.len(),
{
    let lane = ring.spec.lane_of(node);
    let head = ring.lanes[lane].head;
    let all = ring.commit_all(node, frame_kind, ver, head, payloads);
    if payloads.len() > 0 {
        let shorter = payloads.drop_last();
        lemma_append_all(ring, node, frame_kind, ver, shorter);
        lemma_commits_and_moves(ring, node, frame_kind, ver, head, shorter, head);
        let committed = ring.commit_all(node, frame_kind, ver, head, shorter);
        let counter = nth_head(head, (payloads.len() - 1) as nat);
        let frame = ring.frame_at(node, counter, frame_kind, ver, payloads.last());
        let before = committed.moved(lane, counter);
        assert(before.next_frame(node, frame_kind, ver, payloads.last()) == frame);
        assert(before.append(lane, frame).lanes =~= all.moved(
            lane,
            nth_head(head, payloads.len()),
        ).lanes);
    } else {
        assert(ring.moved(lane, head).lanes =~= ring.lanes);
    }
}

/// The ids that a node's next `count` frames get: consecutive from the head of
/// its lane.
pub open spec fn batch_ids(ring: RingView, node: u16, count: nat) -> Seq<NetId64> {
    Seq::new(
        count,
        |i: int|
            NetId64::of(
                ring.kind,
                node,
                nth_head(ring.lanes[ring.spec.lane_of(node)].head, i as nat),
            ),
    )
}

impl RingFrameSource for Ring {
    open spec fn source_kind(&self) -> u8 {
        self@.kind
    }

    open spec fn source_head(&self) -> u64 {
        self@.lanes[0].head
    }

    open spec fn source_capacity(&self) -> usize {
        self@.spec.capacity
    }

    open spec fn source_frame(&self, counter: u64) -> Option<FrameView> {
        self@.lanes[0].at(counter)
    }

    open spec fn source_state(&self, counter: u64) -> ReadView {
        self@.claimed_state(0, counter)
    }

    open spec fn source_ready(&self) -> bool {
        self@.wf()
    }

    fn kind(&self) -> u8 {
        Ring::kind(self)
    }

    fn head(&self) -> u64 {
        Ring::head(self)
    }

    fn capacity(&self) -> usize {
        Ring::capacity(self)
    }

    fn read_at(&self, counter: u64) -> Option<Frame> {
        Ring::read_at(self, counter)
    }

    fn read_state_at(&self, counter: u64) -> RingRead {
        Ring::read_state_at(self, counter)
    }
}

/// The name of a topology.
pub open spec fn topology_text(topology: RingTopology) -> Seq<char> {
    match topology {
        RingTopology::Shared => "Shared"@,
        RingTopology::PerNode => "PerNode"@,
        RingTopology::SharedOrdered => "SharedOrdered"@,
    }
}

/// A geometry, in words.
pub open spec fn spec_text(spec: RingSpec) -> Seq<char> {
    "RingSpec { capacity: "@ + digits(spec.capacity as nat) + ", payload_capacity: "@ + digits(
        spec.payload_capacity as nat,
    ) + ", topology: "@ + topology_text(spec.topology) + " }"@
}

/// Writes a geometry behind a text.
pub fn push_spec(text: &mut String, spec: &RingSpec)
    ensures
        final(text)@ == old(text)@ + spec_text(*spec),
{
    text.append("RingSpec { capacity: ");
    push_number(text, spec.capacity as u64);
    text.append(", payload_capacity: ");
    push_number(text, spec.payload_capacity as u64);
    text.append(", topology: ");
    text.append(
        match spec.topology {
            RingTopology::Shared => "Shared",
            RingTopology::PerNode => "PerNode",
            RingTopology::SharedOrdered => "SharedOrdered",
        },
    );
    text.append(" }");
    assert(text@ =~= old(text)@ + spec_text(*spec));
}

} // verus!
