//! A segment behaves as a ring of one process does.
//!
//! What a segment holds stands for what a ring holds: every operation on the
//! segment is the same operation on the ring it stands for, and a reader of the
//! one finds what a reader of the other finds.
use vstd::prelude::*;

use crate::id::{counter_of, kind_of, law_parts_name_the_id, lemma_pack, node_of, NetId64};
use crate::ring::shm::layout::ShmGeometry;
use crate::ring::shm::slot::{committed_seq, law_commit_then_frame, SlotView, LAST_COUNTER};
use crate::ring::shm::{ShmLaneView, ShmView};
use crate::ring::{LaneView, RingTopology, RingView};

verus! {

/// The lane of a ring that a lane of a segment stands for.
pub open spec fn as_lane(lane: ShmLaneView) -> LaneView {
    LaneView { head: lane.head, slots: lane.slots.map_values(|slot: SlotView| slot.frame()) }
}

/// The ring that a segment stands for.
pub open spec fn as_ring(view: ShmView) -> RingView {
    RingView {
        kind: view.geometry.kind,
        spec: view.geometry.spec,
        version: view.version,
        lanes: view.lanes.map_values(|lane: ShmLaneView| as_lane(lane)),
    }
}

/// True when a slot was committed for this counter of a kind, by the lane's owner
/// where the lane has one.
pub open spec fn committed_for(slot: SlotView, kind: u8, owner: Option<u16>, counter: int) -> bool {
    &&& slot.seq == committed_seq(counter as u64)
    &&& slot.frame() is Some
    &&& kind_of(slot.frame()->0.id.0) == kind
    &&& owner is Some ==> node_of(slot.frame()->0.id.0) == owner->0
    &&& counter_of(slot.frame()->0.id.0) == counter
}

/// The node that alone writes to a lane, on a ring whose lanes have owners.
pub open spec fn owner_of(topology: RingTopology, lane: int) -> Option<u16> {
    if topology == RingTopology::PerNode {
        Some(lane as u16)
    } else {
        None
    }
}

/// True when a slot of a lane was never written, or was committed for a counter
/// of the lane that falls into it.
pub open spec fn slot_settled(view: ShmView, lane: int, index: int) -> bool {
    let slot = view.lanes[lane].slots[index];
    ||| slot.seq == 0
    ||| exists|counter: int|
        0 <= counter < view.lanes[lane].head && counter % view.geometry.spec.capacity as int
            == index && #[trigger] committed_for(
            slot,
            view.geometry.kind,
            owner_of(view.geometry.spec.topology, lane),
            counter,
        )
}

/// True when nothing is in flight in a segment, and no lane's counters have
/// outgrown the forty bits that an id has for them.
pub open spec fn settled(view: ShmView) -> bool {
    &&& forall|lane: int|
        0 <= lane < view.lanes.len() ==> (#[trigger] view.lanes[lane]).head <= 0x100_0000_0000
    &&& forall|lane: int, index: int|
        0 <= lane < view.lanes.len() && 0 <= index < view.geometry.spec.capacity
            ==> #[trigger] slot_settled(view, lane, index)
}

/// A fresh segment stands for a fresh ring, and is settled.
pub proof fn law_fresh_segment_is_a_fresh_ring(geometry: ShmGeometry)
    requires
        geometry.wf(),
    ensures
        as_ring(ShmView::blank(geometry)) == RingView::blank(
            geometry.kind,
            geometry.spec,
            geometry.lane_count as nat,
        ),
        settled(ShmView::blank(geometry)),
{
    let fresh = as_ring(ShmView::blank(geometry));
    let ring = RingView::blank(geometry.kind, geometry.spec, geometry.lane_count as nat);
    assert forall|lane: int| 0 <= lane < geometry.lane_count implies #[trigger] fresh.lanes[lane]
        == ring.lanes[lane] by {
        assert(fresh.lanes[lane].slots =~= ring.lanes[lane].slots);
    }
    assert(fresh.lanes =~= ring.lanes);
}

/// A segment names the same next frame as the ring it stands for.
pub proof fn law_next_frames_agree(
    view: ShmView,
    node: u16,
    frame_kind: u8,
    ver: u64,
    payload: Seq<u8>,
)
    requires
        view.shaped(),
        view.geometry.serves(node),
    ensures
        view.next_frame(node, frame_kind, ver, payload) == as_ring(view).next_frame(
            node,
            frame_kind,
            ver,
            payload,
        ),
{
}

/// To publish a node's next frame on a segment is to append it to the ring that
/// the segment stands for. A settled segment stays settled.
pub proof fn law_publish_is_append(
    view: ShmView,
    node: u16,
    frame_kind: u8,
    ver: u64,
    payload: Seq<u8>,
)
    requires
        view.shaped(),
        view.geometry.serves(node),
        view.lanes[view.geometry.spec.lane_of(node)].head < LAST_COUNTER,
        payload.len() <= view.geometry.spec.payload_capacity,
    ensures
        ({
            let lane = view.geometry.spec.lane_of(node);
            let frame = view.next_frame(node, frame_kind, ver, payload);
            let after = view.publish(lane, frame);
            &&& after.shaped()
            &&& as_ring(after) == as_ring(view).append(lane, frame)
            &&& settled(view) && view.lanes[lane].head < 0x100_0000_0000 ==> settled(after)
        }),
{
    let lane = view.geometry.spec.lane_of(node);
    let frame = view.next_frame(node, frame_kind, ver, payload);
    let after = view.publish(lane, frame);
    let capacity = view.geometry.spec.capacity as int;
    let head = view.lanes[lane].head;
    let index = head as int % capacity;
    vstd::arithmetic::div_mod::lemma_mod_bound(head as int, capacity);
    let slot = view.lanes[lane].slots[index];
    law_commit_then_frame(slot, head, frame);
    assert forall|l: int, i: int|
        0 <= l < after.lanes.len() && 0 <= i < capacity implies (
    #[trigger] after.lanes[l].slots[i]).payload.len() == view.geometry.spec.payload_capacity by {
        assert(view.lanes[l].slots[i].payload.len() == view.geometry.spec.payload_capacity);
    }
    let ring = as_ring(view).append(lane, frame);
    assert(as_ring(view).lanes[lane].slots.len() == capacity);
    assert forall|l: int| 0 <= l < after.lanes.len() implies #[trigger] as_ring(after).lanes[l]
        == ring.lanes[l] by {
        if l == lane {
            assert(as_ring(after).lanes[l].slots =~= ring.lanes[l].slots);
        }
    }
    assert(as_ring(after).lanes =~= ring.lanes);
    if settled(view) && head < 0x100_0000_0000 {
        let kind = view.geometry.kind;
        lemma_pack(kind, node, head);
        assert forall|l: int, i: int|
            0 <= l < after.lanes.len() && 0 <= i < capacity implies #[trigger] slot_settled(
            after,
            l,
            i,
        ) by {
            assert(slot_settled(view, l, i));
            let owner = owner_of(view.geometry.spec.topology, l);
            if l == lane && i == index {
                assert(committed_for(after.lanes[l].slots[i], kind, owner, head as int));
            } else if view.lanes[l].slots[i].seq != 0 {
                let counter = choose|counter: int|
                    0 <= counter < view.lanes[l].head && counter % capacity == i
                        && #[trigger] committed_for(view.lanes[l].slots[i], kind, owner, counter);
                assert(committed_for(after.lanes[l].slots[i], kind, owner, counter));
            }
        }
    }
}

/// To publish a batch on a segment is to append it to the ring that the segment
/// stands for. A settled segment stays settled.
pub proof fn law_batch_is_append_all(
    view: ShmView,
    node: u16,
    frame_kind: u8,
    ver: u64,
    payloads: Seq<Seq<u8>>,
)
    requires
        view.shaped(),
        view.geometry.serves(node),
        view.lanes[view.geometry.spec.lane_of(node)].head + payloads.len() <= LAST_COUNTER,
        forall|i: int|
            0 <= i < payloads.len() ==> (#[trigger] payloads[i]).len()
                <= view.geometry.spec.payload_capacity,
    ensures
        ({
            let lane = view.geometry.spec.lane_of(node);
            let after = view.publish_all(node, frame_kind, ver, payloads);
            &&& after.shaped()
            &&& after.geometry == view.geometry
            &&& after.lanes[lane].head == view.lanes[lane].head + payloads.len()
            &&& as_ring(after) == as_ring(view).append_all(node, frame_kind, ver, payloads)
            &&& settled(view) && view.lanes[lane].head + payloads.len() <= 0x100_0000_0000
                ==> settled(after)
        }),
    decreases payloads.len(),
{
    if payloads.len() > 0 {
        let shorter = payloads.drop_last();
        law_batch_is_append_all(view, node, frame_kind, ver, shorter);
        let before = view.publish_all(node, frame_kind, ver, shorter);
        law_next_frames_agree(before, node, frame_kind, ver, payloads.last());
        law_publish_is_append(before, node, frame_kind, ver, payloads.last());
    }
}

/// A walking reader of a settled segment finds at every counter what a walking
/// reader of the ring that it stands for finds.
pub proof fn law_walks_agree(view: ShmView, node: u16, counter: u64)
    requires
        view.shaped(),
        settled(view),
        view.geometry.serves(node),
        counter < 0x100_0000_0000,
    ensures
        view.state(view.geometry.spec.lane_of(node), counter) == as_ring(view).lane_state(
            node,
            counter,
        ),
{
    let lane = view.geometry.spec.lane_of(node);
    let capacity = view.geometry.spec.capacity as int;
    let index = counter as int % capacity;
    vstd::arithmetic::div_mod::lemma_mod_bound(counter as int, capacity);
    assert(slot_settled(view, lane, index));
    assert(as_ring(view).lanes[lane].slots.len() == capacity);
    assert(as_ring(view).lanes[lane].at(counter) == view.slot(lane, counter).frame());
}

/// A reader by id finds in a settled segment what it finds in the ring that the
/// segment stands for: whatever the ring has under an id, and, where every lane
/// is one node's, nothing else.
pub proof fn law_lookups_agree(view: ShmView, id: NetId64)
    requires
        view.shaped(),
        settled(view),
    ensures
        as_ring(view).lookup(id) is Some ==> view.lookup(id) == as_ring(view).lookup(id),
        view.geometry.spec.topology == RingTopology::PerNode ==> view.lookup(id) == as_ring(
            view,
        ).lookup(id),
{
    let node = node_of(id.0);
    if kind_of(id.0) == view.geometry.kind && view.geometry.serves(node) {
        let lane = view.geometry.spec.lane_of(node);
        let capacity = view.geometry.spec.capacity as int;
        let counter = counter_of(id.0);
        let index = counter as int % capacity;
        vstd::arithmetic::div_mod::lemma_mod_bound(counter as int, capacity);
        assert(slot_settled(view, lane, index));
        assert(as_ring(view).lanes[lane].slots.len() == capacity);
        assert(as_ring(view).lanes[lane].at(counter) == view.slot(lane, counter).frame());
        if view.geometry.spec.topology == RingTopology::PerNode {
            match view.slot(lane, counter).frame() {
                Some(frame) => {
                    law_parts_name_the_id(frame.id.0);
                    law_parts_name_the_id(id.0);
                },
                None => {},
            }
        }
    }
}

} // verus!
