//! What holds of rings over any number of writes.
//!
//! A lane is compared with its history: every frame ever appended to it, in
//! order. The lane holds the youngest frames of that history, as many as it
//! has slots, and a cursor replays exactly those.
use vstd::prelude::*;

use crate::id::{counter_of, kind_of, lemma_pack, node_of, NetId64};
use crate::numbers::{lemma_cut_counter, lemma_slots_differ, max_of};
use crate::ring::cursor::{source_view, ReadView, RingLoss, RingPoll, SourceView};
use crate::ring::{
    batch_ids, frame_views, lemma_append_all, lemma_commits_and_moves, nth_head, FrameView, LaneView, Ring,
    RingSpec, RingTopology, RingView,
};

verus! {

/// The oldest counter that a lane of this capacity still holds after `len`
/// frames.
pub open spec fn window_floor(len: int, capacity: int) -> int {
    max_of(0, len - capacity)
}

/// True when a lane of a ring of this kind has been appended exactly the
/// frames of `history`, none of them with a counter beyond forty bits.
pub open spec fn records(lane: LaneView, kind: u8, history: Seq<FrameView>) -> bool {
    let len = history.len() as int;
    let capacity = lane.slots.len() as int;
    &&& capacity > 0
    &&& len <= 0x100_0000_0000
    &&& lane.head == len
    &&& forall|c: int|
        0 <= c < len ==> kind_of((#[trigger] history[c]).id.0) == kind && counter_of(
            history[c].id.0,
        ) == c
    &&& forall|c: int|
        window_floor(len, capacity) <= c < len ==> lane.slots[c % capacity] == Some(
            #[trigger] history[c],
        )
    &&& forall|i: int| len <= i < capacity ==> (#[trigger] lane.slots[i]) is None
}

/// A lane that nothing was written to has an empty history.
pub proof fn law_blank_records_nothing(kind: u8, capacity: nat)
    requires
        capacity > 0,
    ensures
        records(LaneView::blank(capacity), kind, Seq::empty()),
{
}

/// Appending the next frame extends the history by that frame.
pub proof fn law_append_extends_history(
    lane: LaneView,
    kind: u8,
    node: u16,
    history: Seq<FrameView>,
    frame: FrameView,
)
    requires
        records(lane, kind, history),
        history.len() < 0x100_0000_0000,
        frame.id == NetId64::of(kind, node, lane.head),
    ensures
        records(lane.append(frame), kind, history.push(frame)),
{
    let len = history.len() as int;
    let capacity = lane.slots.len() as int;
    let after = lane.append(frame);
    let longer = history.push(frame);
    lemma_pack(kind, node, lane.head);
    assert(0 <= len % capacity < capacity) by {
        vstd::arithmetic::div_mod::lemma_mod_bound(len, capacity);
    }
    assert forall|c: int| window_floor(len + 1, capacity) <= c < len + 1 implies after.slots[c
        % capacity] == Some(#[trigger] longer[c]) by {
        vstd::arithmetic::div_mod::lemma_mod_bound(c, capacity);
        if c < len {
            lemma_slots_differ(c, len, capacity);
            assert(longer[c] == history[c]);
        }
    }
    assert forall|i: int| len + 1 <= i < capacity implies (#[trigger] after.slots[i]) is None by {
        vstd::arithmetic::div_mod::lemma_small_mod(len as nat, capacity as nat);
        assert(lane.slots[i] is None);
    }
}

/// True when the window of a history is presented to a cursor: a walking reader
/// finds each of its counters ready with its frame.
pub open spec fn presents(walked: SourceView, history: Seq<FrameView>) -> bool {
    let len = history.len() as int;
    &&& walked.head == len
    &&& forall|c: int|
        0 <= c < len ==> kind_of((#[trigger] history[c]).id.0) == walked.kind && counter_of(
            history[c].id.0,
        ) == c
    &&& forall|c: int|
        window_floor(len, walked.capacity as int) <= c < len ==> walked.state(c)
            == ReadView::Ready(#[trigger] history[c])
}

/// The frames collected inside the window are those of the history.
pub proof fn lemma_collected_window(walked: SourceView, history: Seq<FrameView>, from: int, to: int)
    requires
        presents(walked, history),
        window_floor(history.len() as int, walked.capacity as int) <= from <= to <= history.len(),
    ensures
        walked.collected(from, to) == history.subrange(from, to),
    decreases to - from,
{
    if from < to {
        lemma_collected_window(walked, history, from, to - 1);
        assert(walked.state(to - 1) == ReadView::Ready(history[to - 1]));
        assert(history.subrange(from, to) =~= history.subrange(from, to - 1).push(history[to - 1]));
    } else {
        assert(history.subrange(from, to) =~= Seq::<FrameView>::empty());
    }
}

/// A poll of a presented history returns every retained frame from the cursor
/// on, in order, up to the head. It reports as overwritten exactly the counters
/// that have left the window, and nothing as unavailable.
pub proof fn law_poll_replays_history(
    walked: SourceView,
    history: Seq<FrameView>,
    from: u64,
    poll: RingPoll,
)
    requires
        presents(walked, history),
        from <= history.len(),
        walked.is_poll(from, poll),
    ensures
        ({
            let len = history.len() as int;
            let start = max_of(from as int, window_floor(len, walked.capacity as int));
            &&& poll.to_counter == len
            &&& frame_views(poll.frames@) == history.subrange(start, len)
            &&& poll.loss == (RingLoss { overwritten: (start - from) as u64, unavailable: 0 })
        }),
{
    let len = history.len() as int;
    let start = max_of(from as int, window_floor(len, walked.capacity as int));
    if from >= len {
        assert(history.subrange(start, len) =~= Seq::<FrameView>::empty());
    } else {
        assert(start == walked.walk_start(from));
        let end = poll.to_counter as int;
        if end < len {
            assert(walked.state(end) == ReadView::Ready(history[end]));
        }
        lemma_collected_window(walked, history, start, len);
        assert(frame_views(poll.frames@).len() == poll.frames@.len());
    }
}

/// A ring presents the history of its lane zero to a cursor.
pub proof fn law_ring_presents_history(ring: &Ring, history: Seq<FrameView>)
    requires
        ring@.wf(),
        records(ring@.lanes[0], ring@.kind, history),
    ensures
        presents(source_view(ring), history),
{
}

/// What was written is read back under the id that the write returned.
pub proof fn law_write_then_read(
    ring: RingView,
    node: u16,
    frame_kind: u8,
    ver: u64,
    payload: Seq<u8>,
)
    requires
        ring.wf(),
        ring.serves(node),
        ring.spec.capacity <= 0x100_0000_0000,
    ensures
        ({
            let frame = ring.next_frame(node, frame_kind, ver, payload);
            ring.append(ring.spec.lane_of(node), frame).lookup(frame.id) == Some(frame)
        }),
{
    let lane = ring.spec.lane_of(node);
    let frame = ring.next_frame(node, frame_kind, ver, payload);
    let head = ring.lanes[lane].head;
    let capacity = ring.spec.capacity as int;
    lemma_pack(ring.kind, node, head);
    lemma_cut_counter(head as nat, capacity as nat);
    vstd::arithmetic::div_mod::lemma_mod_bound(head as int, capacity);
    assert(ring.lanes[lane].slots.len() == capacity);
}

/// A frame that has left the window of its lane is no longer found.
pub proof fn law_overwritten_is_not_found(
    ring: RingView,
    node: u16,
    history: Seq<FrameView>,
    c: int,
)
    requires
        ring.wf(),
        ring.serves(node),
        records(ring.lanes[ring.spec.lane_of(node)], ring.kind, history),
        0 <= c < history.len() - ring.spec.capacity,
        ring.spec.lane_of(node_of(history[c].id.0)) == ring.spec.lane_of(node),
    ensures
        ring.lookup(history[c].id) is None,
{
    let lane = ring.lanes[ring.spec.lane_of(node)];
    let len = history.len() as int;
    let capacity = ring.spec.capacity as int;
    let floor = window_floor(len, capacity);
    let gap = (floor - c) as int;
    // The counter of the same slot inside the window.
    let steps = (gap + capacity - 1) / capacity;
    let later = c + steps * capacity;
    assert(floor <= later < len && later > c) by (nonlinear_arith)
        requires
            steps == (gap + capacity - 1) / capacity,
            later == c + steps * capacity,
            gap == floor - c,
            gap > 0,
            capacity > 0,
            floor == len - capacity,
    ;
    assert(later % capacity == c % capacity) by {
        vstd::arithmetic::div_mod::lemma_mod_multiples_vanish(steps, c, capacity);
        assert(capacity * steps + c == later) by (nonlinear_arith)
            requires
                later == c + steps * capacity,
        ;
    }
    assert(lane.slots.len() == capacity);
    assert(lane.slots[later % capacity] == Some(history[later]));
    assert(counter_of(history[c].id.0) == c);
    assert(counter_of(history[later].id.0) == later);
}

/// The lanes of a per-node ring are disjoint: a node's write changes no other
/// node's lane.
pub proof fn law_lanes_are_disjoint(
    ring: RingView,
    writer: u16,
    other: u16,
    frame: FrameView,
)
    requires
        ring.spec.topology == RingTopology::PerNode,
        ring.serves(writer),
        ring.serves(other),
        writer != other,
    ensures
        ring.append(ring.spec.lane_of(writer), frame).lanes[ring.spec.lane_of(other)]
            == ring.lanes[ring.spec.lane_of(other)],
{
}

/// A batch of payloads leaves the lane as if each payload had been written on
/// its own, and extends its history by one frame per payload, in order.
pub proof fn law_batch_extends_history(
    ring: RingView,
    node: u16,
    frame_kind: u8,
    ver: u64,
    payloads: Seq<Seq<u8>>,
    history: Seq<FrameView>,
) -> (longer: Seq<FrameView>)
    requires
        ring.wf(),
        ring.serves(node),
        records(ring.lanes[ring.spec.lane_of(node)], ring.kind, history),
        history.len() + payloads.len() <= 0x100_0000_0000,
    ensures
        ({
            let after = ring.append_all(node, frame_kind, ver, payloads);
            &&& after.wf()
            &&& after.kind == ring.kind
            &&& after.spec == ring.spec
            &&& after.lanes.len() == ring.lanes.len()
            &&& records(after.lanes[ring.spec.lane_of(node)], ring.kind, longer)
        }),
        longer.len() == history.len() + payloads.len(),
        longer.subrange(0, history.len() as int) == history,
        forall|i: int|
            0 <= i < payloads.len() ==> (#[trigger] longer[history.len() + i]) == (FrameView {
                id: NetId64::of(ring.kind, node, (history.len() + i) as u64),
                kind: frame_kind,
                ver,
                payload: payloads[i],
            }),
    decreases payloads.len(),
{
    let lane = ring.spec.lane_of(node);
    if payloads.len() == 0 {
        assert(history.subrange(0, history.len() as int) =~= history);
        history
    } else {
        let prefix = payloads.drop_last();
        let shorter = law_batch_extends_history(ring, node, frame_kind, ver, prefix, history);
        let before = ring.append_all(node, frame_kind, ver, prefix);
        let frame = before.next_frame(node, frame_kind, ver, payloads.last());
        law_append_extends_history(before.lanes[lane], ring.kind, node, shorter, frame);
        let longer = shorter.push(frame);
        assert(longer.subrange(0, history.len() as int) =~= shorter.subrange(
            0,
            history.len() as int,
        ));
        assert forall|i: int| 0 <= i < payloads.len() implies (#[trigger] longer[history.len() + i])
            == (FrameView {
            id: NetId64::of(ring.kind, node, (history.len() + i) as u64),
            kind: frame_kind,
            ver,
            payload: payloads[i],
        }) by {
            if i < prefix.len() {
                assert(longer[history.len() + i] == shorter[history.len() + i]);
                assert(prefix[i] == payloads[i]);
            }
        }
        longer
    }
}

proof fn lemma_batch_slots(
    ring: RingView,
    node: u16,
    frame_kind: u8,
    ver: u64,
    payloads: Seq<Seq<u8>>,
)
    requires
        ring.wf(),
        ring.serves(node),
        payloads.len() <= ring.spec.capacity,
        ring.lanes[ring.spec.lane_of(node)].head + payloads.len() <= u64::MAX,
    ensures
        ({
            let index = ring.spec.lane_of(node);
            let head = ring.lanes[index].head;
            let after = ring.append_all(node, frame_kind, ver, payloads);
            let capacity = ring.spec.capacity as int;
            &&& after.wf()
            &&& after.kind == ring.kind
            &&& after.spec == ring.spec
            &&& after.lanes.len() == ring.lanes.len()
            &&& after.lanes[index].head == head + payloads.len()
            &&& forall|i: int|
                0 <= i < payloads.len() ==> after.lanes[index].slots[(head + i) % capacity] == Some(
                    batch_frame(ring, node, frame_kind, ver, #[trigger] payloads[i], i),
                )
        }),
    decreases payloads.len(),
{
    let index = ring.spec.lane_of(node);
    let head = ring.lanes[index].head;
    let capacity = ring.spec.capacity as int;
    if payloads.len() > 0 {
        let prefix = payloads.drop_last();
        lemma_batch_slots(ring, node, frame_kind, ver, prefix);
        let before = ring.append_all(node, frame_kind, ver, prefix);
        let after = ring.append_all(node, frame_kind, ver, payloads);
        let last = payloads.len() - 1;
        assert(before.lanes[index].slots.len() == capacity);
        vstd::arithmetic::div_mod::lemma_mod_bound(head + last, capacity);
        assert forall|i: int| 0 <= i < payloads.len() implies after.lanes[index].slots[(head + i)
            % capacity] == Some(
            batch_frame(ring, node, frame_kind, ver, #[trigger] payloads[i], i),
        ) by {
            vstd::arithmetic::div_mod::lemma_mod_bound(head + i, capacity);
            if i < last {
                assert(prefix[i] == payloads[i]);
                lemma_slots_differ(head + i, head + last, capacity);
            }
        }
    }
}

/// The frame that a batch makes of its payload number `i`.
pub open spec fn batch_frame(
    ring: RingView,
    node: u16,
    frame_kind: u8,
    ver: u64,
    payload: Seq<u8>,
    i: int,
) -> FrameView {
    FrameView {
        id: NetId64::of(
            ring.kind,
            node,
            (ring.lanes[ring.spec.lane_of(node)].head + i) as u64,
        ),
        kind: frame_kind,
        ver,
        payload,
    }
}

/// Every frame of a batch is read back under its id: a batch is never larger
/// than the ring, so none of it overwrites the rest.
pub proof fn law_batch_then_read(
    ring: RingView,
    node: u16,
    frame_kind: u8,
    ver: u64,
    payloads: Seq<Seq<u8>>,
    i: int,
)
    requires
        ring.wf(),
        ring.serves(node),
        ring.spec.capacity <= 0x100_0000_0000,
        payloads.len() <= ring.spec.capacity,
        ring.lanes[ring.spec.lane_of(node)].head + payloads.len() <= u64::MAX,
        0 <= i < payloads.len(),
    ensures
        ({
            let frame = batch_frame(ring, node, frame_kind, ver, payloads[i], i);
            ring.append_all(node, frame_kind, ver, payloads).lookup(frame.id) == Some(frame)
        }),
{
    lemma_batch_slots(ring, node, frame_kind, ver, payloads);
    let index = ring.spec.lane_of(node);
    let counter = (ring.lanes[index].head + i) as u64;
    let frame = batch_frame(ring, node, frame_kind, ver, payloads[i], i);
    let after = ring.append_all(node, frame_kind, ver, payloads);
    lemma_pack(ring.kind, node, counter);
    lemma_cut_counter(counter as nat, ring.spec.capacity as nat);
    assert(after.lanes[index].slots.len() == ring.spec.capacity);
    assert(after.lanes[index].slots[counter as int % ring.spec.capacity as int] == Some(frame));
}

/// A batch shows at once. While its frames are being committed, no head moves, so
/// a reader of a lane whose head counts commits sees none of them. To append the
/// batch is to commit all of it, and then to move the head past the whole.
pub proof fn law_batch_shows_at_once(
    ring: RingView,
    node: u16,
    frame_kind: u8,
    ver: u64,
    payloads: Seq<Seq<u8>>,
    committed: int,
)
    requires
        ring.serves(node),
        0 <= committed <= payloads.len(),
    ensures
        ({
            let lane = ring.spec.lane_of(node);
            let head = ring.lanes[lane].head;
            let part = payloads.subrange(0, committed);
            let whole = ring.commit_all(node, frame_kind, ver, head, payloads);
            &&& forall|l: int|
                0 <= l < ring.lanes.len() ==> (#[trigger] ring.commit_all(
                    node,
                    frame_kind,
                    ver,
                    head,
                    part,
                ).lanes[l]).head == ring.lanes[l].head
            &&& ring.append_all(node, frame_kind, ver, payloads) == whole.moved(
                lane,
                nth_head(head, payloads.len()),
            )
        }),
{
    let head = ring.lanes[ring.spec.lane_of(node)].head;
    let part = payloads.subrange(0, committed);
    lemma_append_all(ring, node, frame_kind, ver, payloads);
    lemma_commits_and_moves(ring, node, frame_kind, ver, head, part, head);
}

/// The newest frame of a lane is the one that was written last; a lane that was never
/// written has none.
pub proof fn law_latest_is_the_last_written(ring: RingView, lane: int, frame: FrameView)
    requires
        ring.wf(),
        0 <= lane < ring.lanes.len(),
        ring.lanes[lane].head < u64::MAX,
    ensures
        ring.append(lane, frame).latest(lane) == Some(frame),
        ring.append(lane, frame).lanes[lane].head == ring.lanes[lane].head + 1,
        ring.lanes[lane].head == 0 ==> ring.latest(lane) is None,
{
    let capacity = ring.spec.capacity as int;
    assert(ring.lanes[lane].slots.len() == capacity);
    vstd::arithmetic::div_mod::lemma_mod_bound(ring.lanes[lane].head as int, capacity);
}

/// Whose lane is whose: in a ring of node lanes each node has one of its own, in a ring
/// that all share there is one.
pub proof fn law_lanes_belong_to_nodes(
    spec: RingSpec,
    fleet_capacity: u16,
    node: u16,
    other: u16,
)
    requires
        node < fleet_capacity,
        other < fleet_capacity,
    ensures
        0 <= spec.lane_of(node) < spec.lanes_for(fleet_capacity),
        spec.topology == RingTopology::PerNode ==> spec.lanes_for(fleet_capacity)
            == fleet_capacity,
        spec.topology == RingTopology::PerNode ==> (spec.lane_of(node) == spec.lane_of(other)
            <==> node == other),
        spec.topology != RingTopology::PerNode ==> spec.lane_of(node) == spec.lane_of(other)
            && spec.lanes_for(fleet_capacity) == 1,
{
}

/// A loss counts everything that was missed, once, up to the largest number there is.
pub proof fn law_loss_counts_everything(loss: RingLoss)
    ensures
        loss.overwritten + loss.unavailable <= u64::MAX ==> loss.sum() == loss.overwritten
            + loss.unavailable,
        loss.overwritten + loss.unavailable > u64::MAX ==> loss.sum() == u64::MAX,
{
}

/// A frame says by its id which ring, which node and which counter it is of, and carries
/// what was written, unchanged.
pub proof fn law_frame_carries_what_was_written(
    ring: RingView,
    node: u16,
    frame_kind: u8,
    ver: u64,
    payload: Seq<u8>,
)
    requires
        ring.serves(node),
    ensures
        ({
            let frame = ring.next_frame(node, frame_kind, ver, payload);
            let head = ring.lanes[ring.spec.lane_of(node)].head;
            &&& kind_of(frame.id.0) == ring.kind
            &&& node_of(frame.id.0) == node
            &&& head < 0x100_0000_0000 ==> counter_of(frame.id.0) == head
            &&& frame.kind == frame_kind
            &&& frame.ver == ver
            &&& frame.payload == payload
        }),
{
    lemma_pack(ring.kind, node, ring.lanes[ring.spec.lane_of(node)].head);
}

/// What a walking reader finds at a counter of a lane: the frame of that counter where it
/// is there; nothing any more where a later one has its slot; and where an earlier one has
/// it, or none, nothing yet in a ring that all share, else nothing at all.
pub proof fn law_reader_finds_the_frame_of_its_counter(
    ring: RingView,
    node: u16,
    counter: u64,
    frame: FrameView,
)
    ensures
        ({
            let slot = ring.lanes[ring.spec.lane_of(node)].at(counter);
            let found = ring.lane_state(node, counter);
            let yet = if ring.spec.topology == RingTopology::Shared {
                ReadView::Pending
            } else {
                ReadView::Unavailable
            };
            &&& found == ReadView::Ready(frame) <==> slot == Some(frame) && counter_of(frame.id.0)
                == counter
            &&& slot is None ==> found == yet
            &&& slot is Some && counter_of((slot->0).id.0) < counter ==> found == yet
            &&& slot is Some && counter_of((slot->0).id.0) > counter ==> found
                == ReadView::Unavailable
        }),
{
}

/// A batch gives an id for each payload, in order, and each is the id under which the
/// payload is read back. The head moves past all of them.
pub proof fn law_batch_ids_name_the_payloads(
    ring: RingView,
    node: u16,
    frame_kind: u8,
    ver: u64,
    payloads: Seq<Seq<u8>>,
    i: int,
)
    requires
        ring.wf(),
        ring.serves(node),
        ring.spec.capacity <= 0x100_0000_0000,
        payloads.len() <= ring.spec.capacity,
        ring.lanes[ring.spec.lane_of(node)].head + payloads.len() <= u64::MAX,
        0 <= i < payloads.len(),
    ensures
        ({
            let after = ring.append_all(node, frame_kind, ver, payloads);
            let ids = batch_ids(ring, node, payloads.len());
            let lane = ring.spec.lane_of(node);
            &&& ids.len() == payloads.len()
            &&& after.lookup(ids[i]) matches Some(frame) && frame.id == ids[i] && frame.payload
                == payloads[i] && frame.kind == frame_kind && frame.ver == ver
            &&& after.lanes[lane].head == ring.lanes[lane].head + payloads.len()
        }),
{
    law_batch_then_read(ring, node, frame_kind, ver, payloads, i);
    let lane = ring.spec.lane_of(node);
    lemma_nth(ring.lanes[lane].head, i as nat);
    lemma_nth(ring.lanes[lane].head, payloads.len());
    law_batch_shows_at_once(ring, node, frame_kind, ver, payloads, 0);
    let whole = ring.commit_all(node, frame_kind, ver, ring.lanes[lane].head, payloads);
    lemma_commits_and_moves(
        ring,
        node,
        frame_kind,
        ver,
        ring.lanes[lane].head,
        payloads,
        ring.lanes[lane].head,
    );
}

proof fn lemma_nth(head: u64, count: nat)
    requires
        head + count <= u64::MAX,
    ensures
        nth_head(head, count) == head + count,
    decreases count,
{
    if count > 0 {
        lemma_nth(head, (count - 1) as nat);
    }
}

/// Which rings can be made: those with a capacity that is a power of two, and payloads
/// whose length fits its field.
pub proof fn law_rings_have_a_power_of_two_of_slots(spec: RingSpec)
    ensures
        spec.valid() <==> spec.capacity > 0 && vstd::arithmetic::power2::is_pow2(
            spec.capacity as int,
        ) && spec.payload_capacity < 0x1_0000_0000,
{
}

/// A look-up gives the frame of the very id that was asked for, of this ring, or nothing.
pub proof fn law_look_up_gives_the_frame_of_the_id(ring: RingView, id: NetId64)
    requires
        ring.wf(),
    ensures
        ring.lookup(id) matches Some(frame) ==> {
            &&& frame.id == id
            &&& kind_of(id.0) == ring.kind
            &&& ring.serves(node_of(id.0))
            &&& ring.lanes[ring.spec.lane_of(node_of(id.0))].slots.contains(Some(frame))
        },
        kind_of(id.0) != ring.kind ==> ring.lookup(id) is None,
        !ring.serves(node_of(id.0)) ==> ring.lookup(id) is None,
{
    if let Some(frame) = ring.lookup(id) {
        let lane = ring.lanes[ring.spec.lane_of(node_of(id.0))];
        assert(lane.slots.len() == ring.spec.capacity);
        vstd::arithmetic::div_mod::lemma_mod_bound(
            counter_of(id.0) as int,
            lane.slots.len() as int,
        );
        assert(lane.slots[lane.slot_of(counter_of(id.0))] == Some(frame));
    }
}

} // verus!
