//! What holds of a segment over any number of writes.
use vstd::prelude::*;

use crate::id::{counter_of, cut_counter, kind_of, lemma_pack, node_of, NetId64};
use crate::numbers::{lemma_cut_counter, lemma_slots_differ};
use crate::ring::cursor::{source_view, ReadView};
use crate::ring::laws::{presents, window_floor};
use crate::ring::shm::slot::{committed_seq, law_commit_then_frame, LAST_COUNTER};
use crate::ring::shm::layout::ShmError;
use crate::ring::shm::{
    batch_error, first_too_large, lemma_commits_and_moves, lemma_publish_all, next_notification,
    ShmLaneView, ShmRing, ShmView,
};
use crate::ring::{FrameView, RingSpec, RingTopology};

verus! {

/// True when a lane of a segment has been appended exactly the frames of
/// `history`, none of them with a counter beyond forty bits.
pub open spec fn shm_records(
    lane: ShmLaneView,
    payload_capacity: nat,
    kind: u8,
    history: Seq<FrameView>,
) -> bool {
    let len = history.len() as int;
    let capacity = lane.slots.len() as int;
    &&& capacity > 0
    &&& len <= 0x100_0000_0000
    &&& lane.head == len
    &&& forall|i: int|
        0 <= i < capacity ==> (#[trigger] lane.slots[i]).payload.len() == payload_capacity
    &&& forall|c: int|
        0 <= c < len ==> kind_of((#[trigger] history[c]).id.0) == kind && counter_of(
            history[c].id.0,
        ) == c
    &&& forall|c: int|
        window_floor(len, capacity) <= c < len ==> {
            &&& lane.slots[c % capacity].frame() == Some(#[trigger] history[c])
            &&& lane.slots[c % capacity].seq == committed_seq(c as u64)
        }
    &&& forall|i: int| len <= i < capacity ==> (#[trigger] lane.slots[i]).seq == 0
}

/// A fresh segment's lanes have empty histories.
pub proof fn law_fresh_segment_records_nothing(
    geometry: crate::ring::shm::layout::ShmGeometry,
    lane: int,
)
    requires
        geometry.wf(),
        0 <= lane < geometry.lane_count,
    ensures
        shm_records(
            ShmView::blank(geometry).lanes[lane],
            geometry.spec.payload_capacity as nat,
            geometry.kind,
            Seq::empty(),
        ),
{
}

/// Publishing the next frame extends the lane's history by that frame.
pub proof fn law_publish_extends_history(
    view: ShmView,
    node: u16,
    frame_kind: u8,
    ver: u64,
    payload: Seq<u8>,
    history: Seq<FrameView>,
)
    requires
        view.geometry.wf(),
        view.geometry.serves(node),
        view.lanes.len() == view.geometry.lane_count,
        ({
            let lane = view.lanes[view.geometry.spec.lane_of(node)];
            &&& lane.slots.len() == view.geometry.spec.capacity
            &&& shm_records(
                lane,
                view.geometry.spec.payload_capacity as nat,
                view.geometry.kind,
                history,
            )
        }),
        history.len() < 0x100_0000_0000,
        payload.len() <= view.geometry.spec.payload_capacity,
    ensures
        ({
            let lane = view.geometry.spec.lane_of(node);
            let frame = view.next_frame(node, frame_kind, ver, payload);
            shm_records(
                view.publish(lane, frame).lanes[lane],
                view.geometry.spec.payload_capacity as nat,
                view.geometry.kind,
                history.push(frame),
            )
        }),
{
    let index = view.geometry.spec.lane_of(node);
    let lane = view.lanes[index];
    let frame = view.next_frame(node, frame_kind, ver, payload);
    let after = view.publish(index, frame).lanes[index];
    let len = history.len() as int;
    let capacity = lane.slots.len() as int;
    let longer = history.push(frame);
    lemma_pack(view.geometry.kind, node, lane.head);
    vstd::arithmetic::div_mod::lemma_mod_bound(len, capacity);
    law_commit_then_frame(lane.slots[len % capacity], lane.head, frame);
    assert forall|c: int| window_floor(len + 1, capacity) <= c < len + 1 implies {
        &&& after.slots[c % capacity].frame() == Some(#[trigger] longer[c])
        &&& after.slots[c % capacity].seq == committed_seq(c as u64)
    } by {
        vstd::arithmetic::div_mod::lemma_mod_bound(c, capacity);
        if c < len {
            lemma_slots_differ(c, len, capacity);
            assert(longer[c] == history[c]);
        }
    }
    assert forall|i: int| len + 1 <= i < capacity implies (#[trigger] after.slots[i]).seq == 0 by {
        vstd::arithmetic::div_mod::lemma_small_mod(len as nat, capacity as nat);
        assert(lane.slots[i].seq == 0);
    }
    assert forall|i: int| 0 <= i < capacity implies (#[trigger] after.slots[i]).payload.len()
        == view.geometry.spec.payload_capacity by {
        assert(lane.slots[i].payload.len() == view.geometry.spec.payload_capacity);
    }
}

/// A segment presents the history of its lane zero to a cursor, whatever the
/// topology. By `law_poll_replays_history` a poll then replays the retained
/// frames in order.
pub proof fn law_segment_presents_history(ring: &ShmRing, history: Seq<FrameView>)
    requires
        ring.wf(),
        shm_records(
            ring@.lanes[0],
            ring@.geometry.spec.payload_capacity as nat,
            ring@.geometry.kind,
            history,
        ),
    ensures
        presents(source_view(ring), history),
{
    let len = history.len() as int;
    let capacity = ring@.geometry.spec.capacity as int;
    assert(ring@.lanes[0].slots.len() == capacity);
    assert forall|c: int| window_floor(len, capacity) <= c < len implies ring@.state(0, c as u64)
        == ReadView::Ready(#[trigger] history[c]) by {
        assert(ring@.lanes[0].slots[c % capacity].frame() == Some(history[c]));
    }
}

/// What was published is read back under the id that the write returned.
pub proof fn law_publish_then_read(
    view: ShmView,
    node: u16,
    frame_kind: u8,
    ver: u64,
    payload: Seq<u8>,
)
    requires
        view.geometry.wf(),
        view.geometry.serves(node),
        view.lanes.len() == view.geometry.lane_count,
        ({
            let lane = view.lanes[view.geometry.spec.lane_of(node)];
            let index = lane.head as int % view.geometry.spec.capacity as int;
            &&& lane.slots.len() == view.geometry.spec.capacity
            &&& lane.slots[index].payload.len() == view.geometry.spec.payload_capacity
            &&& lane.head < LAST_COUNTER
        }),
        view.geometry.spec.capacity <= 0x100_0000_0000,
        payload.len() <= view.geometry.spec.payload_capacity,
    ensures
        ({
            let frame = view.next_frame(node, frame_kind, ver, payload);
            view.publish(view.geometry.spec.lane_of(node), frame).lookup(frame.id) == Some(frame)
        }),
{
    let lane = view.geometry.spec.lane_of(node);
    let frame = view.next_frame(node, frame_kind, ver, payload);
    let head = view.lanes[lane].head;
    let capacity = view.geometry.spec.capacity as int;
    lemma_pack(view.geometry.kind, node, head);
    lemma_cut_counter(head as nat, capacity as nat);
    vstd::arithmetic::div_mod::lemma_mod_bound(head as int, capacity);
    law_commit_then_frame(view.lanes[lane].slots[head as int % capacity], head, frame);
}

/// The lanes of a per-node segment are disjoint: a node's write changes no
/// other node's lane.
pub proof fn law_segment_lanes_are_disjoint(
    view: ShmView,
    writer: u16,
    other: u16,
    frame: FrameView,
)
    requires
        view.geometry.spec.topology == RingTopology::PerNode,
        view.lanes.len() == view.geometry.lane_count,
        view.geometry.serves(writer),
        view.geometry.serves(other),
        writer != other,
    ensures
        view.publish(view.geometry.spec.lane_of(writer), frame).lanes[view.geometry.spec.lane_of(
            other,
        )] == view.lanes[view.geometry.spec.lane_of(other)],
{
}

/// Two handles with one geometry over the same bytes see the same ring.
pub proof fn law_handles_share_the_segment(one: &ShmRing, other: &ShmRing)
    requires
        one.wf(),
        other.wf(),
        one@.geometry == other@.geometry,
        one.bytes() == other.bytes(),
    ensures
        one@ == other@,
{
}

/// A batch shows at once. While its frames are being committed, no head moves, so
/// a reader of a lane whose head counts commits sees none of them. To publish the
/// batch is to commit all of it, and then to move the head past the whole.
pub proof fn law_batch_shows_at_once(
    view: ShmView,
    node: u16,
    frame_kind: u8,
    ver: u64,
    payloads: Seq<Seq<u8>>,
    committed: int,
)
    requires
        view.geometry.serves(node),
        view.lanes.len() == view.geometry.lane_count,
        view.lanes[view.geometry.spec.lane_of(node)].head + payloads.len() <= u64::MAX,
        0 <= committed <= payloads.len(),
    ensures
        ({
            let lane = view.geometry.spec.lane_of(node);
            let head = view.lanes[lane].head;
            let part = payloads.subrange(0, committed);
            let whole = view.commit_all(node, frame_kind, ver, head, payloads);
            &&& forall|l: int|
                0 <= l < view.lanes.len() ==> (#[trigger] view.commit_all(
                    node,
                    frame_kind,
                    ver,
                    head,
                    part,
                ).lanes[l]).head == view.lanes[l].head
            &&& view.publish_all(node, frame_kind, ver, payloads) == whole.moved(
                lane,
                (head + payloads.len()) as u64,
            )
        }),
{
    let head = view.lanes[view.geometry.spec.lane_of(node)].head;
    let part = payloads.subrange(0, committed);
    lemma_publish_all(view, node, frame_kind, ver, payloads);
    lemma_commits_and_moves(view, node, frame_kind, ver, head, part, head);
}

/// Which batches are accepted: those with no more frames than a lane has slots and no
/// payload that is too large for one. The first payload that is too large is told.
pub proof fn law_batches_are_accepted_where_they_fit(
    spec: RingSpec,
    payloads: Seq<Seq<u8>>,
    i: int,
)
    ensures
        batch_error(spec, payloads) is None <==> payloads.len() <= spec.capacity && forall|k: int|
            0 <= k < payloads.len() ==> (#[trigger] payloads[k]).len() <= spec.payload_capacity,
        payloads.len() <= spec.capacity && 0 <= i < payloads.len() && payloads[i].len()
            > spec.payload_capacity && payloads[i].len() <= usize::MAX && (forall|k: int|
            0 <= k < i ==> (#[trigger] payloads[k]).len() <= spec.payload_capacity) ==> batch_error(
            spec,
            payloads,
        ) == Some(
            ShmError::PayloadTooLarge {
                len: payloads[i].len() as usize,
                max: spec.payload_capacity,
            },
        ),
{
    lemma_first_too_large(payloads, spec.payload_capacity as int);
}

proof fn lemma_first_too_large(payloads: Seq<Seq<u8>>, max: int)
    ensures
        match first_too_large(payloads, max) {
            Some(index) => {
                &&& 0 <= index < payloads.len()
                &&& payloads[index].len() > max
                &&& forall|k: int| 0 <= k < index ==> (#[trigger] payloads[k]).len() <= max
            },
            None => forall|k: int|
                0 <= k < payloads.len() ==> (#[trigger] payloads[k]).len() <= max,
        },
    decreases payloads.len(),
{
    if payloads.len() > 0 {
        let shorter = payloads.drop_last();
        lemma_first_too_large(shorter, max);
        assert forall|k: int| 0 <= k < shorter.len() implies shorter[k] == #[trigger] payloads[k] by {}
    }
}

/// The newest frame of a lane is the one that was published last.
pub proof fn law_latest_is_the_last_published(view: ShmView, lane: int, frame: FrameView)
    requires
        view.shaped(),
        0 <= lane < view.lanes.len(),
        view.lanes[lane].head < LAST_COUNTER,
        frame.payload.len() <= view.geometry.spec.payload_capacity,
        counter_of(frame.id.0) == cut_counter(view.lanes[lane].head),
    ensures
        view.publish(lane, frame).latest(lane) == Some(frame),
        view.publish(lane, frame).lanes[lane].head == view.lanes[lane].head + 1,
{
    let head = view.lanes[lane].head;
    let capacity = view.geometry.spec.capacity as int;
    vstd::arithmetic::div_mod::lemma_mod_bound(head as int, capacity);
    let index = head as int % capacity;
    assert(view.lanes[lane].slots[index].payload.len() == view.geometry.spec.payload_capacity);
    law_commit_then_frame(view.lanes[lane].slots[index], head, frame);
    assert(view.publish(lane, frame).slot(lane, head) == view.lanes[lane].slots[index].commit(
        head,
        frame,
    ));
}

/// Every publication that notifies changes the word that waiters watch.
pub proof fn law_notification_changes(generation: u32)
    ensures
        next_notification(generation) != generation,
        generation < u32::MAX ==> next_notification(generation) == generation + 1,
{
}

/// A look-up in a segment gives a frame of the counter and the kind that were asked for, or
/// nothing.
pub proof fn law_look_up_gives_the_frame_of_the_id(view: ShmView, id: NetId64)
    ensures
        view.lookup(id) matches Some(frame) ==> counter_of(frame.id.0) == counter_of(id.0)
            && kind_of(id.0) == view.geometry.kind && view.geometry.serves(node_of(id.0)),
        kind_of(id.0) != view.geometry.kind ==> view.lookup(id) is None,
        !view.geometry.serves(node_of(id.0)) ==> view.lookup(id) is None,
{
}

} // verus!
