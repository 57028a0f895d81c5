//! Cursors over the rings of a fleet.
use std::marker::PhantomData;
use vstd::prelude::*;

use crate::fleet::{lemma_ring_fits, Fleet, FleetView, NodeId};
use crate::ring::cursor::{
    poll_ring, source_view, wanted, ReadView, RingCursor, RingFrameSource, RingLoss, RingPoll,
    RingRead, SourceView,
};
use crate::ring::{frame_views, Frame, FrameView, LaneView, RingTopology, RingView};
use crate::numbers::{max_of, min_of};
use crate::typed::{declared, OrbitTyped};

verus! {

/// What a member's handle presents of the ring of `T` to a cursor.
pub open spec fn walked<T: OrbitTyped>(view: FleetView) -> SourceView {
    SourceView {
        kind: T::KIND,
        head: view.own_lane::<T>().head,
        capacity: T::RING_CAPACITY,
        states: |counter: u64| view.state::<T>(counter),
    }
}

/// The ring of `T` as this member walks it.
pub struct FleetRingSource<'a, T: OrbitTyped> {
    fleet: &'a Fleet,
    marker: PhantomData<T>,
}

impl<'a, T: OrbitTyped> FleetRingSource<'a, T> {
    /// The walked handle, as a specification.
    pub closed spec fn handle(&self) -> FleetView {
        self.fleet@
    }

    /// True when the handle can be walked.
    pub closed spec fn ready(&self) -> bool {
        self.fleet.wf() && self.fleet@.usable::<T>()
    }

    fn new(fleet: &'a Fleet) -> (source: FleetRingSource<'a, T>)
        requires
            fleet.wf(),
            fleet@.usable::<T>(),
        ensures
            source.handle() == fleet@,
            source.ready(),
    {
        FleetRingSource { fleet, marker: PhantomData }
    }
}

impl<'a, T: OrbitTyped> RingFrameSource for FleetRingSource<'a, T> {
    open spec fn source_kind(&self) -> u8 {
        T::KIND
    }

    open spec fn source_head(&self) -> u64 {
        self.handle().own_lane::<T>().head
    }

    open spec fn source_capacity(&self) -> usize {
        T::RING_CAPACITY
    }

    open spec fn source_frame(&self, counter: u64) -> Option<FrameView> {
        self.handle().own_lane::<T>().at(counter)
    }

    open spec fn source_state(&self, counter: u64) -> ReadView {
        self.handle().state::<T>(counter)
    }

    open spec fn source_ready(&self) -> bool {
        self.ready()
    }

    fn kind(&self) -> u8 {
        T::KIND
    }

    fn head(&self) -> u64 {
        self.fleet.head::<T>()
    }

    fn capacity(&self) -> usize {
        self.fleet.ring_capacity::<T>()
    }

    fn read_at(&self, counter: u64) -> Option<Frame> {
        self.fleet.read_at::<T>(counter)
    }

    fn read_state_at(&self, counter: u64) -> RingRead {
        self.fleet.read_state_at::<T>(counter)
    }
}

/// One node's lane of the ring of `T`.
pub struct FleetLaneSource<'a, T: OrbitTyped> {
    fleet: &'a Fleet,
    node_id: NodeId,
    marker: PhantomData<T>,
}

impl<'a, T: OrbitTyped> FleetLaneSource<'a, T> {
    /// The walked handle, as a specification.
    pub closed spec fn handle(&self) -> FleetView {
        self.fleet@
    }

    /// The walked lane's node, as a specification.
    pub closed spec fn node(&self) -> u16 {
        self.node_id.0
    }

    /// True when the lane can be walked.
    pub closed spec fn ready(&self) -> bool {
        &&& self.fleet.wf()
        &&& self.fleet@.usable::<T>()
        &&& self.fleet@.ring::<T>().serves(self.node_id.0)
    }

    fn new(fleet: &'a Fleet, node_id: NodeId) -> (source: FleetLaneSource<'a, T>)
        requires
            fleet.wf(),
            fleet@.usable::<T>(),
            fleet@.ring::<T>().serves(node_id.0),
        ensures
            source.handle() == fleet@,
            source.node() == node_id.0,
            source.ready(),
    {
        FleetLaneSource { fleet, node_id, marker: PhantomData }
    }
}

impl<'a, T: OrbitTyped> RingFrameSource for FleetLaneSource<'a, T> {
    open spec fn source_kind(&self) -> u8 {
        T::KIND
    }

    open spec fn source_head(&self) -> u64 {
        self.handle().ring::<T>().lanes[declared::<T>().lane_of(self.node())].head
    }

    open spec fn source_capacity(&self) -> usize {
        T::RING_CAPACITY
    }

    open spec fn source_frame(&self, counter: u64) -> Option<FrameView> {
        self.handle().ring::<T>().lanes[declared::<T>().lane_of(self.node())].at(counter)
    }

    open spec fn source_state(&self, counter: u64) -> ReadView {
        self.handle().ring::<T>().lane_state(self.node(), counter)
    }

    open spec fn source_ready(&self) -> bool {
        self.ready()
    }

    fn kind(&self) -> u8 {
        T::KIND
    }

    fn head(&self) -> u64 {
        self.fleet.lane_head::<T>(self.node_id)
    }

    fn capacity(&self) -> usize {
        self.fleet.ring_capacity::<T>()
    }

    fn read_at(&self, counter: u64) -> Option<Frame> {
        self.fleet.read_lane_at::<T>(self.node_id, counter)
    }

    fn read_state_at(&self, counter: u64) -> RingRead {
        self.fleet.read_lane_state_at::<T>(self.node_id, counter)
    }
}

/// The wanted frames of a node's lane from counter `from` up to `to`, in order.
pub open spec fn gathered(ring: RingView, node: u16, from: int, to: int) -> Seq<FrameView>
    decreases to - from,
{
    if to <= from {
        Seq::empty()
    } else {
        let before = gathered(ring, node, from, to - 1);
        let state = ring.lane_state(node, (to - 1) as u64);
        if wanted(state, ring.kind, (to - 1) as u64) {
            before.push(state->Ready_0)
        } else {
            before
        }
    }
}

/// The counter at which a walk of a node's lane begins: the cursor's, or the
/// oldest one the lane still holds. A cursor beyond the head begins at the
/// head.
pub open spec fn lane_start(ring: RingView, node: u16, from: u64) -> int {
    let head = ring.lanes[ring.spec.lane_of(node)].head as int;
    if from >= head {
        head
    } else {
        max_of(from as int, head - ring.spec.capacity)
    }
}

/// The frames that a walk of a node's lane from `from` to its head gives.
pub open spec fn lane_frames(ring: RingView, node: u16, from: u64) -> Seq<FrameView> {
    gathered(
        ring,
        node,
        lane_start(ring, node, from),
        ring.lanes[ring.spec.lane_of(node)].head as int,
    )
}

/// The counters that a walk of a node's lane from `from` finds overwritten.
pub open spec fn lane_overwritten(ring: RingView, node: u16, from: u64) -> int {
    max_of(lane_start(ring, node, from) - from, 0)
}

/// The counters that a walk of a node's lane from `from` cannot use.
pub open spec fn lane_unavailable(ring: RingView, node: u16, from: u64) -> int {
    ring.lanes[ring.spec.lane_of(node)].head - lane_start(ring, node, from) - lane_frames(
        ring,
        node,
        from,
    ).len()
}

/// The frames of the first `nodes` lanes, lane after lane.
pub open spec fn lanes_frames(ring: RingView, positions: Seq<u64>, nodes: nat) -> Seq<FrameView>
    decreases nodes,
{
    if nodes == 0 {
        Seq::empty()
    } else {
        lanes_frames(ring, positions, (nodes - 1) as nat) + lane_frames(
            ring,
            (nodes - 1) as u16,
            positions[nodes - 1],
        )
    }
}

/// The overwritten counters of the first `nodes` lanes.
pub open spec fn lanes_overwritten(ring: RingView, positions: Seq<u64>, nodes: nat) -> int
    decreases nodes,
{
    if nodes == 0 {
        0
    } else {
        lanes_overwritten(ring, positions, (nodes - 1) as nat) + lane_overwritten(
            ring,
            (nodes - 1) as u16,
            positions[nodes - 1],
        )
    }
}

/// The unusable counters of the first `nodes` lanes.
pub open spec fn lanes_unavailable(ring: RingView, positions: Seq<u64>, nodes: nat) -> int
    decreases nodes,
{
    if nodes == 0 {
        0
    } else {
        lanes_unavailable(ring, positions, (nodes - 1) as nat) + lane_unavailable(
            ring,
            (nodes - 1) as u16,
            positions[nodes - 1],
        )
    }
}

proof fn lemma_gathered<T: OrbitTyped>(source: &FleetLaneSource<T>, from: int, to: int)
    requires
        source.handle().ring::<T>().kind == T::KIND,
        source.handle().ring::<T>().spec == declared::<T>(),
    ensures
        source_view(source).collected(from, to) == gathered(
            source.handle().ring::<T>(),
            source.node(),
            from,
            to,
        ),
    decreases to - from,
{
    if from < to {
        lemma_gathered(source, from, to - 1);
    }
}

proof fn lemma_gathered_len(ring: RingView, node: u16, from: int, to: int)
    ensures
        gathered(ring, node, from, to).len() <= max_of(to - from, 0),
    decreases to - from,
{
    if from < to {
        lemma_gathered_len(ring, node, from, to - 1);
    }
}

/// A walk of a per-node lane always reaches the lane's head.
proof fn lemma_lane_poll<T: OrbitTyped>(source: &FleetLaneSource<T>, from: u64, poll: RingPoll)
    requires
        source.handle().ring::<T>().kind == T::KIND,
        source.handle().ring::<T>().spec == declared::<T>(),
        T::RING_TOPOLOGY == RingTopology::PerNode,
        source_view(source).is_poll(from, poll),
    ensures
        ({
            let ring = source.handle().ring::<T>();
            let node = source.node();
            &&& poll.to_counter == ring.lanes[ring.spec.lane_of(node)].head
            &&& frame_views(poll.frames@) == lane_frames(ring, node, from)
            &&& poll.loss.overwritten == lane_overwritten(ring, node, from)
            &&& poll.loss.unavailable == lane_unavailable(ring, node, from)
        }),
{
    let ring = source.handle().ring::<T>();
    let node = source.node();
    let head = ring.lanes[ring.spec.lane_of(node)].head as int;
    if from < head {
        let start = source_view(source).walk_start(from);
        assert(start == lane_start(ring, node, from));
        if poll.to_counter < head {
            assert(source_view(source).state(poll.to_counter as int) is Pending);
        }
        lemma_gathered(source, start, head);
        assert(frame_views(poll.frames@).len() == poll.frames@.len());
    } else {
        assert(lane_frames(ring, node, from).len() == 0);
        assert(lane_frames(ring, node, from) =~= Seq::<FrameView>::empty());
        assert(poll.frames@.len() == frame_views(poll.frames@).len());
    }
}

/// Caller-owned positions for every node lane of one ring.
#[derive(Debug, PartialEq, Eq)]
pub struct FleetLaneCursor {
    lanes: Vec<RingCursor>,
    initial_counter: u64,
}

/// What a lane cursor holds: a position per lane, once it has met a fleet, and
/// the position at which new lanes begin.
#[verifier::ext_equal]
pub struct LaneCursorView {
    pub positions: Seq<u64>,
    pub initial: u64,
}

impl LaneCursorView {
    /// The positions with which a fleet of this capacity is polled.
    pub open spec fn begin(self, capacity: u16) -> Seq<u64> {
        if self.positions.len() == 0 {
            Seq::new(capacity as nat, |i: int| self.initial)
        } else {
            self.positions
        }
    }

    /// True when the cursor has met no fleet, or one of this capacity.
    pub open spec fn fits(self, capacity: u16) -> bool {
        self.positions.len() == 0 || self.positions.len() == capacity
    }
}

impl View for FleetLaneCursor {
    type V = LaneCursorView;

    closed spec fn view(&self) -> LaneCursorView {
        LaneCursorView {
            positions: self.lanes@.map_values(|cursor: RingCursor| cursor@),
            initial: self.initial_counter,
        }
    }
}

impl Clone for FleetLaneCursor {
    fn clone(&self) -> (copy: FleetLaneCursor)
        ensures
            copy@ == self@,
    {
        let mut lanes: Vec<RingCursor> = Vec::new();
        let mut index: usize = 0;
        while index < self.lanes.len()
            invariant
                index <= self.lanes@.len(),
                lanes@ == self.lanes@.subrange(0, index as int),
            decreases self.lanes@.len() - index,
        {
            lanes.push(self.lanes[index]);
            index = index + 1;
            assert(lanes@ =~= self.lanes@.subrange(0, index as int));
        }
        assert(lanes@ =~= self.lanes@);
        FleetLaneCursor { lanes, initial_counter: self.initial_counter }
    }
}

fn cursors_at(counter: u64, count: u16) -> (lanes: Vec<RingCursor>)
    ensures
        lanes@.len() == count,
        forall|i: int| 0 <= i < count ==> (#[trigger] lanes@[i])@ == counter,
{
    let mut lanes: Vec<RingCursor> = Vec::new();
    while lanes.len() < count as usize
        invariant
            lanes@.len() <= count,
            forall|i: int| 0 <= i < lanes@.len() ==> (#[trigger] lanes@[i])@ == counter,
        decreases count - lanes@.len(),
    {
        lanes.push(RingCursor::from_counter(counter));
    }
    lanes
}

impl FleetLaneCursor {
    /// A cursor over lanes at these positions.
    pub fn of_lanes(lanes: Vec<RingCursor>, initial_counter: u64) -> (cursor: FleetLaneCursor)
        ensures
            cursor@ == (LaneCursorView {
                positions: lanes@.map_values(|cursor: RingCursor| cursor@),
                initial: initial_counter,
            }),
    {
        FleetLaneCursor { lanes, initial_counter }
    }

    /// The positions with which a fleet of this capacity is polled.
    pub fn begun(&self, capacity: u16) -> (lanes: Vec<RingCursor>)
        ensures
            lanes@.map_values(|cursor: RingCursor| cursor@) == self@.begin(capacity),
    {
        if self.lanes.len() == 0 {
            let lanes: Vec<RingCursor> = cursors_at(self.initial_counter, capacity);
            assert(lanes@.map_values(|cursor: RingCursor| cursor@) =~= self@.begin(capacity));
            return lanes;
        }
        let copy = self.clone();
        copy.lanes
    }

    /// The position at which new lanes begin.
    pub fn initial(&self) -> (counter: u64)
        ensures
            counter == self@.initial,
    {
        self.initial_counter
    }

    /// A cursor that begins every lane at this counter.
    pub fn from_counter(initial_counter: u64) -> (cursor: FleetLaneCursor)
        ensures
            cursor@ == (LaneCursorView { positions: Seq::empty(), initial: initial_counter }),
    {
        let cursor = FleetLaneCursor { lanes: Vec::new(), initial_counter };
        assert(cursor@.positions =~= Seq::<u64>::empty());
        cursor
    }

    /// The smallest position of a lane, or the initial counter while there are
    /// no lanes.
    pub fn minimum_next_counter(&self) -> (counter: u64)
        ensures
            self@.positions.len() == 0 ==> counter == self@.initial,
            self@.positions.len() > 0 ==> self@.positions.contains(counter),
            forall|i: int|
                0 <= i < self@.positions.len() ==> counter <= #[trigger] self@.positions[i],
    {
        if self.lanes.len() == 0 {
            return self.initial_counter;
        }
        let mut least: u64 = self.lanes[0].next_counter();
        let mut index: usize = 1;
        assert(self@.positions[0] == least);
        while index < self.lanes.len()
            invariant
                1 <= index <= self.lanes@.len(),
                self@.positions.len() == self.lanes@.len(),
                self@.positions.contains(least),
                forall|i: int| 0 <= i < index ==> least <= #[trigger] self@.positions[i],
            decreases self.lanes@.len() - index,
        {
            let counter: u64 = self.lanes[index].next_counter();
            assert(self@.positions[index as int] == counter);
            if counter < least {
                least = counter;
            }
            index = index + 1;
        }
        least
    }
}

/// Combined result of walking every node lane once.
#[derive(Debug, PartialEq, Eq)]
pub struct FleetLanePoll {
    pub frames: Vec<Frame>,
    pub loss: RingLoss,
}

impl FleetLanePoll {
    /// A result of no lanes.
    pub fn nothing() -> (poll: FleetLanePoll)
        ensures
            frame_views(poll.frames@) == Seq::<FrameView>::empty(),
            poll.loss == (RingLoss { overwritten: 0, unavailable: 0 }),
    {
        let poll = FleetLanePoll {
            frames: Vec::new(),
            loss: RingLoss { overwritten: 0, unavailable: 0 },
        };
        assert(frame_views(poll.frames@) =~= Seq::<FrameView>::empty());
        poll
    }

    /// Takes in the result of one more lane: its frames come last, and its losses
    /// are added, up to the largest `u64`.
    pub fn absorb(&mut self, lane: RingPoll)
        ensures
            frame_views(final(self).frames@) == frame_views(old(self).frames@) + frame_views(
                lane.frames@,
            ),
            final(self).loss.overwritten == min_of(
                old(self).loss.overwritten + lane.loss.overwritten,
                u64::MAX as int,
            ),
            final(self).loss.unavailable == min_of(
                old(self).loss.unavailable + lane.loss.unavailable,
                u64::MAX as int,
            ),
    {
        let ghost more = lane.frames@;
        let mut lane: RingPoll = lane;
        self.frames.append(&mut lane.frames);
        assert(frame_views(self.frames@) =~= frame_views(old(self).frames@) + frame_views(more));
        self.loss = RingLoss {
            overwritten: self.loss.overwritten.saturating_add(lane.loss.overwritten),
            unavailable: self.loss.unavailable.saturating_add(lane.loss.unavailable),
        };
    }
}

/// What polling the lanes of a ring from these positions gives: the frames of
/// each lane in order, lane after lane, and the losses of all lanes, which stop
/// at the largest `u64`.
pub open spec fn is_lane_poll(ring: RingView, positions: Seq<u64>, poll: FleetLanePoll) -> bool {
    &&& frame_views(poll.frames@) == lanes_frames(ring, positions, positions.len())
    &&& poll.loss.overwritten == min_of(
        lanes_overwritten(ring, positions, positions.len()),
        u64::MAX as int,
    )
    &&& poll.loss.unavailable == min_of(
        lanes_unavailable(ring, positions, positions.len()),
        u64::MAX as int,
    )
}

/// The heads of a ring's lanes.
pub open spec fn lane_heads(ring: RingView) -> Seq<u64> {
    ring.lanes.map_values(|lane: LaneView| lane.head)
}

impl Fleet {
    /// A cursor that starts behind every counter of `T` known now.
    pub fn cursor_at_head<T: OrbitTyped>(&self) -> (cursor: RingCursor)
        requires
            self.wf(),
            self@.usable::<T>(),
        ensures
            cursor@ == self@.own_lane::<T>().head,
    {
        RingCursor::from_counter(self.head::<T>())
    }

    /// A cursor that starts at counter zero.
    pub fn cursor_from_start<T: OrbitTyped>(&self) -> (cursor: RingCursor)
        ensures
            cursor@ == 0,
    {
        RingCursor::from_start()
    }

    /// Walks a cursor toward the head of `T`'s ring.
    pub fn poll_ring<T: OrbitTyped>(&self, cursor: &mut RingCursor) -> (poll: RingPoll)
        requires
            self.wf(),
            self@.usable::<T>(),
        ensures
            walked::<T>(self@).is_poll(old(cursor)@, poll),
            final(cursor)@ == poll.to_counter,
    {
        let source = FleetRingSource::<T>::new(self);
        assert(source_view(&source) =~= walked::<T>(self@)) by {
            assert(source_view(&source).states =~= walked::<T>(self@).states);
        }
        poll_ring(&source, cursor)
    }

    /// A cursor over every node lane of `T`, each at its current head.
    pub fn lane_cursor_at_head<T: OrbitTyped>(&self) -> (cursor: FleetLaneCursor)
        requires
            self.wf(),
            self@.usable::<T>(),
            T::RING_TOPOLOGY == RingTopology::PerNode,
        ensures
            cursor@ == (LaneCursorView { positions: lane_heads(self@.ring::<T>()), initial: 0 }),
            cursor@.fits(self@.capacity),
    {
        proof {
            self.lemma_wf();
            lemma_ring_fits::<T>(self@);
        }
        let capacity: u16 = self.fleet_capacity();
        let mut lanes: Vec<RingCursor> = Vec::new();
        let mut node: u16 = 0;
        while node < capacity
            invariant
                node <= capacity,
                capacity == self@.capacity,
                self.wf(),
                self@.usable::<T>(),
                T::RING_TOPOLOGY == RingTopology::PerNode,
                self@.ring::<T>().spec == declared::<T>(),
                self@.ring::<T>().lanes.len() == capacity,
                lanes@.len() == node,
                forall|i: int|
                    0 <= i < node ==> (#[trigger] lanes@[i])@ == self@.ring::<T>().lanes[i].head,
            decreases capacity - node,
        {
            lanes.push(RingCursor::from_counter(self.lane_head::<T>(NodeId::new(node))));
            node = node + 1;
        }
        let cursor = FleetLaneCursor { lanes, initial_counter: 0 };
        assert(cursor@.positions =~= lane_heads(self@.ring::<T>()));
        cursor
    }

    /// A cursor over every node lane of `T`, each at counter zero.
    pub fn lane_cursor_from_start<T: OrbitTyped>(&self) -> (cursor: FleetLaneCursor)
        requires
            T::RING_TOPOLOGY == RingTopology::PerNode,
        ensures
            cursor@ == (LaneCursorView {
                positions: Seq::new(self@.capacity as nat, |i: int| 0u64),
                initial: 0,
            }),
    {
        let cursor = FleetLaneCursor {
            lanes: cursors_at(0, self.fleet_capacity()),
            initial_counter: 0,
        };
        assert(cursor@.positions =~= Seq::new(self@.capacity as nat, |i: int| 0u64));
        cursor
    }

    /// Walks every node lane of `T` to its head and combines the frames and the
    /// losses. Frames are ordered within a lane, not across lanes.
    pub fn poll_lanes<T: OrbitTyped>(&self, cursor: &mut FleetLaneCursor) -> (poll: FleetLanePoll)
        requires
            self.wf(),
            self@.usable::<T>(),
            T::RING_TOPOLOGY == RingTopology::PerNode,
            old(cursor)@.fits(self@.capacity),
        ensures
            is_lane_poll(self@.ring::<T>(), old(cursor)@.begin(self@.capacity), poll),
            final(cursor)@ == (LaneCursorView {
                positions: lane_heads(self@.ring::<T>()),
                initial: old(cursor)@.initial,
            }),
            final(cursor)@.fits(self@.capacity),
    {
        proof {
            self.lemma_wf();
            lemma_ring_fits::<T>(self@);
        }
        let ghost ring = self@.ring::<T>();
        let ghost positions = cursor@.begin(self@.capacity);
        let capacity: u16 = self.fleet_capacity();
        if cursor.lanes.len() == 0 {
            cursor.lanes = cursors_at(cursor.initial_counter, capacity);
        }
        assert(cursor@.positions =~= positions);
        let mut combined: FleetLanePoll = FleetLanePoll::nothing();
        let mut node: u16 = 0;
        while node < capacity
            invariant
                node <= capacity,
                capacity == self@.capacity,
                self.wf(),
                self@.usable::<T>(),
                T::RING_TOPOLOGY == RingTopology::PerNode,
                ring == self@.ring::<T>(),
                ring.kind == T::KIND,
                ring.spec == declared::<T>(),
                ring.lanes.len() == capacity,
                positions.len() == capacity,
                cursor.lanes@.len() == capacity,
                cursor.initial_counter == old(cursor)@.initial,
                forall|i: int|
                    0 <= i < node ==> (#[trigger] cursor.lanes@[i])@ == ring.lanes[i].head,
                forall|i: int|
                    node <= i < capacity ==> (#[trigger] cursor.lanes@[i])@ == positions[i],
                frame_views(combined.frames@) == lanes_frames(ring, positions, node as nat),
                combined.loss.overwritten == min_of(
                    lanes_overwritten(ring, positions, node as nat),
                    u64::MAX as int,
                ),
                combined.loss.unavailable == min_of(
                    lanes_unavailable(ring, positions, node as nat),
                    u64::MAX as int,
                ),
                0 <= lanes_overwritten(ring, positions, node as nat),
                0 <= lanes_unavailable(ring, positions, node as nat),
            decreases capacity - node,
        {
            let source = FleetLaneSource::<T>::new(self, NodeId::new(node));
            let mut lane_cursor = cursor.lanes[node as usize];
            let poll = poll_ring(&source, &mut lane_cursor);
            proof {
                lemma_lane_poll(&source, positions[node as int], poll);
                lemma_gathered_len(
                    ring,
                    node,
                    lane_start(ring, node, positions[node as int]),
                    ring.lanes[node as int].head as int,
                );
            }
            cursor.lanes[node as usize] = lane_cursor;
            combined.absorb(poll);
            node = node + 1;
        }
        assert(cursor@.positions =~= lane_heads(ring));
        combined
    }
}

} // verus!
