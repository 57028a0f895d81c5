//! What holds of a fleet over any number of publications.
use vstd::prelude::*;

use crate::error::Error;
use crate::fleet::cursor::{
    gathered, lane_frames, lane_heads, lane_overwritten, lane_start, lane_unavailable, lanes_frames,
    lanes_overwritten, lanes_unavailable, LaneCursorView,
};
use crate::fleet::{joined, lemma_ring_fits, Fleet, FleetView};
use crate::id::{lemma_pack, NetId64};
use crate::numbers::max_of;
use crate::ring::cursor::ReadView;
use crate::ring::laws::{law_write_then_read, records, window_floor};
use crate::ring::{FrameView, RingTopology, RingView};
use crate::typed::OrbitTyped;

verus! {

/// What was published is read back under the id that the publication returned.
pub proof fn law_publish_then_read<T: OrbitTyped>(
    view: FleetView,
    frame_kind: u8,
    ver: u64,
    payload: Seq<u8>,
)
    requires
        view.wf(),
        view.usable::<T>(),
        T::RING_CAPACITY <= 0x100_0000_0000,
    ensures
        ({
            let ring = view.ring::<T>();
            let frame = ring.next_frame(view.node, frame_kind, ver, payload);
            let after = view.with_ring::<T>(ring.append(ring.spec.lane_of(view.node), frame));
            &&& crate::id::kind_of(frame.id.0) == T::KIND
            &&& after.rings[T::KIND].lookup(frame.id) == Some(frame)
        }),
{
    lemma_ring_fits::<T>(view);
    let ring = view.ring::<T>();
    lemma_pack(T::KIND, view.node, ring.lanes[ring.spec.lane_of(view.node)].head);
    law_write_then_read(ring, view.node, frame_kind, ver, payload);
}

/// Minted ids do not repeat: the ids of two different mints of a kind differ, while
/// the counter of neither has come round.
pub proof fn law_minted_ids_differ(view: FleetView, kind: u8, one: u64, other: u64)
    requires
        one < other,
        other - one < 0x100_0000_0000,
    ensures
        NetId64::of(kind, view.node, one) != NetId64::of(kind, view.node, other),
{
    lemma_pack(kind, view.node, one);
    lemma_pack(kind, view.node, other);
}

proof fn lemma_gathered_window(
    ring: RingView,
    node: u16,
    history: Seq<FrameView>,
    from: int,
    to: int,
)
    requires
        ring.wf(),
        ring.serves(node),
        records(ring.lanes[ring.spec.lane_of(node)], ring.kind, history),
        window_floor(history.len() as int, ring.spec.capacity as int) <= from <= to
            <= history.len(),
    ensures
        gathered(ring, node, from, to) == history.subrange(from, to),
    decreases to - from,
{
    if from < to {
        lemma_gathered_window(ring, node, history, from, to - 1);
        assert(ring.lanes[ring.spec.lane_of(node)].slots.len() == ring.spec.capacity);
        assert(ring.lane_state(node, (to - 1) as u64) == ReadView::Ready(history[to - 1]));
        assert(history.subrange(from, to) =~= history.subrange(from, to - 1).push(history[to - 1]));
    } else {
        assert(history.subrange(from, to) =~= Seq::<FrameView>::empty());
    }
}

/// A walk of a lane from a cursor at or before its head gives every retained
/// frame from the cursor on, in order. It finds overwritten exactly the
/// counters that have left the window, and nothing unusable.
pub proof fn law_lane_walk_replays_history(
    ring: RingView,
    node: u16,
    history: Seq<FrameView>,
    from: u64,
)
    requires
        ring.wf(),
        ring.serves(node),
        records(ring.lanes[ring.spec.lane_of(node)], ring.kind, history),
        from <= history.len(),
    ensures
        ({
            let len = history.len() as int;
            let start = max_of(from as int, window_floor(len, ring.spec.capacity as int));
            &&& lane_frames(ring, node, from) == history.subrange(start, len)
            &&& lane_overwritten(ring, node, from) == start - from
            &&& lane_unavailable(ring, node, from) == 0
        }),
{
    let len = history.len() as int;
    let start = max_of(from as int, window_floor(len, ring.spec.capacity as int));
    assert(start == lane_start(ring, node, from));
    lemma_gathered_window(ring, node, history, start, len);
}

proof fn lemma_lanes_after_publication(ring: RingView, node: u16, frame: FrameView, nodes: nat)
    requires
        ring.wf(),
        ring.spec.topology == RingTopology::PerNode,
        node < ring.lanes.len(),
        nodes <= ring.lanes.len(),
        ring.lanes[node as int].head < 0x100_0000_0000,
        frame.id == NetId64::of(ring.kind, node, ring.lanes[node as int].head),
    ensures
        ({
            let after = ring.append(node as int, frame);
            let positions = lane_heads(ring);
            &&& lanes_frames(after, positions, nodes) == if node < nodes {
                seq![frame]
            } else {
                Seq::empty()
            }
            &&& lanes_overwritten(after, positions, nodes) == 0
            &&& lanes_unavailable(after, positions, nodes) == 0
        }),
    decreases nodes,
{
    if nodes > 0 {
        let after = ring.append(node as int, frame);
        let positions = lane_heads(ring);
        let last = (nodes - 1) as u16;
        lemma_lanes_after_publication(ring, node, frame, (nodes - 1) as nat);
        assert(positions[last as int] == ring.lanes[last as int].head);
        let head = ring.lanes[last as int].head;
        let before = lanes_frames(after, positions, (nodes - 1) as nat);
        if last == node {
            lemma_pack(ring.kind, node, head);
            let capacity = ring.spec.capacity as int;
            assert(ring.lanes[node as int].slots.len() == capacity);
            vstd::arithmetic::div_mod::lemma_mod_bound(head as int, capacity);
            assert(after.lane_state(node, head) == ReadView::Ready(frame));
            assert(gathered(after, node, head as int, head as int) =~= Seq::<FrameView>::empty());
            assert(gathered(after, node, head as int, head + 1) =~= seq![frame]);
            assert(lane_start(after, node, head) == head);
            assert(before + seq![frame] =~= seq![frame]);
        } else {
            assert(after.lanes[last as int] == ring.lanes[last as int]);
            assert(lane_frames(after, last, head) =~= Seq::<FrameView>::empty());
            assert(before + Seq::<FrameView>::empty() =~= before);
        }
    }
}

/// A subscriber that was at the head of every lane reads exactly the frame that
/// is published next, and misses nothing.
pub proof fn law_publish_then_poll(ring: RingView, node: u16, frame: FrameView)
    requires
        ring.wf(),
        ring.spec.topology == RingTopology::PerNode,
        node < ring.lanes.len(),
        ring.lanes[node as int].head < 0x100_0000_0000,
        frame.id == NetId64::of(ring.kind, node, ring.lanes[node as int].head),
    ensures
        ({
            let after = ring.append(ring.spec.lane_of(node), frame);
            let positions = lane_heads(ring);
            &&& lanes_frames(after, positions, positions.len()) == seq![frame]
            &&& lanes_overwritten(after, positions, positions.len()) == 0
            &&& lanes_unavailable(after, positions, positions.len()) == 0
        }),
{
    lemma_lanes_after_publication(ring, node, frame, ring.lanes.len());
}

/// A subscriber that is at the head of every lane reads nothing, and misses
/// nothing.
pub proof fn law_poll_at_head_is_empty(ring: RingView, nodes: nat)
    requires
        ring.spec.topology == RingTopology::PerNode,
        nodes <= ring.lanes.len() <= u16::MAX,
    ensures
        lanes_frames(ring, lane_heads(ring), nodes) == Seq::<FrameView>::empty(),
        lanes_overwritten(ring, lane_heads(ring), nodes) == 0,
        lanes_unavailable(ring, lane_heads(ring), nodes) == 0,
    decreases nodes,
{
    if nodes > 0 {
        law_poll_at_head_is_empty(ring, (nodes - 1) as nat);
        let last = (nodes - 1) as u16;
        let head = ring.lanes[last as int].head;
        assert(lane_heads(ring)[last as int] == head);
        assert(lane_frames(ring, last, head) =~= Seq::<FrameView>::empty());
        assert(Seq::<FrameView>::empty() + Seq::<FrameView>::empty() =~= Seq::<FrameView>::empty());
    }
}

proof fn lemma_gathered_len(ring: RingView, node: u16, from: int, to: int)
    ensures
        gathered(ring, node, from, to).len() <= max_of(to - from, 0),
    decreases to - from,
{
    if from < to {
        lemma_gathered_len(ring, node, from, to - 1);
    }
}

/// Every counter between a cursor and the head of a lane is accounted for exactly once:
/// it gives a frame, or has left the window, or is unavailable. A counter has left the
/// window when a whole ring was published since. Behind the head there is nothing.
pub proof fn law_every_counter_is_accounted_for(ring: RingView, node: u16, from: u64)
    ensures
        ({
            let head = ring.lanes[ring.spec.lane_of(node)].head as int;
            let frames = lane_frames(ring, node, from).len();
            let overwritten = lane_overwritten(ring, node, from);
            let unavailable = lane_unavailable(ring, node, from);
            &&& from <= head ==> overwritten + unavailable + frames == head - from
            &&& from >= head ==> overwritten == 0 && unavailable == 0 && frames == 0
            &&& from < head && head - from <= ring.spec.capacity ==> overwritten == 0
            &&& from < head && head - from > ring.spec.capacity ==> overwritten == head - from
                - ring.spec.capacity
            &&& 0 <= overwritten
            &&& 0 <= unavailable
        }),
{
    let head = ring.lanes[ring.spec.lane_of(node)].head as int;
    lemma_gathered_len(ring, node, lane_start(ring, node, from), head);
}

/// How many counters lie between cursors and the heads of these lanes.
pub open spec fn behind(ring: RingView, positions: Seq<u64>, nodes: nat) -> int
    decreases nodes,
{
    if nodes == 0 {
        0
    } else {
        behind(ring, positions, (nodes - 1) as nat) + max_of(
            ring.lanes[ring.spec.lane_of((nodes - 1) as u16)].head - positions[nodes - 1],
            0,
        )
    }
}

/// A poll of all lanes accounts for every counter between the cursors and the heads:
/// as many as there are give frames, or were overwritten, or are unavailable.
pub proof fn law_poll_accounts_for_every_counter(ring: RingView, positions: Seq<u64>, nodes: nat)
    ensures
        lanes_overwritten(ring, positions, nodes) + lanes_unavailable(ring, positions, nodes)
            + lanes_frames(ring, positions, nodes).len() == behind(ring, positions, nodes),
        0 <= lanes_overwritten(ring, positions, nodes),
        0 <= lanes_unavailable(ring, positions, nodes),
    decreases nodes,
{
    if nodes > 0 {
        law_poll_accounts_for_every_counter(ring, positions, (nodes - 1) as nat);
        law_every_counter_is_accounted_for(ring, (nodes - 1) as u16, positions[nodes - 1]);
    }
}

/// Who can join a fleet: a node that is inside it. The fleet is empty of frames then, and
/// of the name and the size that were given.
pub proof fn law_nodes_join_the_fleet_they_are_in(
    name: Seq<char>,
    capacity: u16,
    node: u16,
    fleet: Result<Fleet, Error>,
)
    requires
        joined(name, capacity, node, fleet),
    ensures
        fleet is Ok <==> node < capacity,
        capacity == 0 ==> fleet == Err::<Fleet, Error>(Error::EmptyFleet),
        fleet matches Ok(fleet) ==> fleet@.name == name && fleet@.capacity == capacity
            && fleet@.node == node && fleet@.rings.dom() == Set::<u8>::empty(),
{
    if fleet is Ok {
        assert(fleet->Ok_0@.rings.dom() =~= Set::<u8>::empty());
    }
}

/// Where a cursor begins: in every lane at the counter that it was given, or where it left
/// off.
pub proof fn law_cursor_begins_where_it_was_put(
    cursor: LaneCursorView,
    capacity: u16,
    ring: RingView,
    i: int,
)
    requires
        cursor.fits(capacity),
        0 <= i < capacity,
    ensures
        cursor.begin(capacity).len() == capacity,
        cursor.positions.len() == 0 ==> cursor.begin(capacity)[i] == cursor.initial,
        cursor.positions.len() > 0 ==> cursor.begin(capacity)[i] == cursor.positions[i],
        ring.lanes.len() == capacity ==> lane_heads(ring)[i] == ring.lanes[i].head
            && lane_heads(ring).len() == capacity,
{
}

/// A poll reads the lanes in the order of their nodes, each as a whole: the frames of a
/// node stand behind those of the nodes before it, and before those of the nodes behind it.
pub proof fn law_lanes_are_read_in_order(
    ring: RingView,
    positions: Seq<u64>,
    nodes: nat,
    node: nat,
)
    requires
        node < nodes,
    ensures
        ({
            let all = lanes_frames(ring, positions, nodes);
            let before = lanes_frames(ring, positions, node);
            let own = lane_frames(ring, node as u16, positions[node as int]);
            &&& before.len() + own.len() <= all.len()
            &&& all.subrange(0, before.len() as int) == before
            &&& all.subrange(before.len() as int, before.len() as int + own.len()) == own
            &&& node == nodes - 1 ==> all == before + own
            &&& node == 0 ==> before.len() == 0
        }),
    decreases nodes,
{
    let all = lanes_frames(ring, positions, nodes);
    let before = lanes_frames(ring, positions, node);
    let own = lane_frames(ring, node as u16, positions[node as int]);
    if node < nodes - 1 {
        law_lanes_are_read_in_order(ring, positions, (nodes - 1) as nat, node);
        let shorter = lanes_frames(ring, positions, (nodes - 1) as nat);
        assert(all.subrange(0, before.len() as int) =~= shorter.subrange(0, before.len() as int));
        assert(all.subrange(before.len() as int, before.len() as int + own.len()) =~= shorter.subrange(
            before.len() as int,
            before.len() as int + own.len(),
        ));
    } else {
        assert(all.subrange(0, before.len() as int) =~= before);
        assert(all.subrange(before.len() as int, before.len() as int + own.len()) =~= own);
    }
}

} // verus!
