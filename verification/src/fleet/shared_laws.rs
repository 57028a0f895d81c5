//! What holds of a fleet over shared memory, over any number of publications.
use vstd::prelude::*;

use crate::error::Error;
use crate::fleet::cursor::{gathered, lane_frames, lane_overwritten, lane_unavailable};
use crate::fleet::laws::law_lane_walk_replays_history;
use crate::fleet::shared::{
    joined_shm, notified, shm_batch_ids, shm_lane_heads, shm_lanes, walk_frames, walk_overwritten,
    walk_unavailable, walks_frames, walks_overwritten, walks_unavailable, ShmFleet, ShmFleetView,
};
use crate::fleet::FleetView;
use crate::id::{counter_of, kind_of, lemma_pack, node_of, NetId64};
use crate::numbers::max_of;
use crate::ring::cursor::{ReadView, SourceView};
use crate::ring::laws::{lemma_collected_window, presents, records, window_floor};
use crate::ring::registry::ring_fits;
use crate::ring::shm::laws::{self, shm_records};
use crate::ring::shm::refinement::{
    as_ring, law_lookups_agree, law_next_frames_agree, law_publish_is_append, law_walks_agree,
    settled,
};
use crate::ring::shm::slot::{law_commit_then_frame, LAST_COUNTER};
use crate::ring::shm::ShmView;
use crate::ring::{FrameView, RingTopology, RingView};
use crate::typed::{declared, OrbitTyped};

verus! {

/// What was published is read back under the id that the publication returned, and
/// is the most recent frame of its lane.
pub proof fn law_shared_publish_then_read<T: OrbitTyped>(
    view: ShmFleetView,
    frame_kind: u8,
    ver: u64,
    payload: Seq<u8>,
)
    requires
        view.wf(),
        view.attached::<T>(),
        T::RING_CAPACITY <= 0x100_0000_0000,
        payload.len() <= T::RING_PAYLOAD_CAPACITY,
        view.lane_head::<T>(view.node) < LAST_COUNTER,
    ensures
        ({
            let ring = view.ring::<T>();
            let frame = ring.next_frame(view.node, frame_kind, ver, payload);
            let after = view.with_ring::<T>(
                ring.publish(declared::<T>().lane_of(view.node), frame),
            );
            &&& after.found(frame.id) == Some(frame)
            &&& after.latest::<T>(view.node) == Some(frame)
        }),
{
    let ring = view.ring::<T>();
    lemma_pack(T::KIND, view.node, view.lane_head::<T>(view.node));
    vstd::arithmetic::div_mod::lemma_mod_bound(
        view.lane_head::<T>(view.node) as int,
        T::RING_CAPACITY as int,
    );
    laws::law_publish_then_read(ring, view.node, frame_kind, ver, payload);
    let lane = declared::<T>().lane_of(view.node);
    let head = ring.lanes[lane].head;
    let frame = ring.next_frame(view.node, frame_kind, ver, payload);
    let slot = ring.lanes[lane].slots[head as int % T::RING_CAPACITY as int];
    assert(slot.payload.len() == T::RING_PAYLOAD_CAPACITY);
    law_commit_then_frame(slot, head, frame);
    let after = ring.publish(lane, frame);
    assert(after.lanes[lane].head == head + 1);
    assert(after.slot(lane, head).frame() == Some(frame));
}

/// A walk of a lane from a cursor at or before its head gives every retained
/// frame from the cursor on, in order. It finds overwritten exactly the
/// counters that have left the window, and nothing unusable.
pub proof fn law_shared_walk_replays_history<T: OrbitTyped>(
    view: ShmFleetView,
    node: u16,
    history: Seq<FrameView>,
    from: u64,
)
    requires
        view.wf(),
        view.attached::<T>(),
        node < view.capacity,
        shm_records(
            view.ring::<T>().lanes[declared::<T>().lane_of(node)],
            T::RING_PAYLOAD_CAPACITY as nat,
            T::KIND,
            history,
        ),
        from <= history.len(),
    ensures
        ({
            let len = history.len() as int;
            let start = max_of(from as int, window_floor(len, T::RING_CAPACITY as int));
            let lane = view.lane::<T>(node);
            &&& walk_frames(lane, from) == history.subrange(start, len)
            &&& walk_overwritten(lane, from) == start - from
            &&& walk_unavailable(lane, from) == 0
        }),
{
    let len = history.len() as int;
    let capacity = T::RING_CAPACITY as int;
    let lane = view.lane::<T>(node);
    let slots = view.ring::<T>().lanes[declared::<T>().lane_of(node)].slots;
    assert(slots.len() == capacity);
    assert forall|c: int| window_floor(len, capacity) <= c < len implies lane.state(c)
        == ReadView::Ready(#[trigger] history[c]) by {
        assert(slots[c % capacity].frame() == Some(history[c]));
    }
    assert(presents(lane, history));
    let start = max_of(from as int, window_floor(len, capacity));
    if from < len {
        lemma_collected_window(lane, history, start, len);
    } else {
        assert(history.subrange(start, len) =~= Seq::<FrameView>::empty());
    }
}

/// Where the rings live makes no difference to a reader: a lane in this process
/// and a lane in shared memory that have recorded the same frames, with the same
/// number of slots, give the same walk from every position.
pub proof fn law_backings_agree<T: OrbitTyped>(
    ring: RingView,
    view: ShmFleetView,
    node: u16,
    history: Seq<FrameView>,
    from: u64,
)
    requires
        ring.wf(),
        ring.serves(node),
        ring.kind == T::KIND,
        ring.spec == declared::<T>(),
        records(ring.lanes[ring.spec.lane_of(node)], T::KIND, history),
        view.wf(),
        view.attached::<T>(),
        node < view.capacity,
        shm_records(
            view.ring::<T>().lanes[declared::<T>().lane_of(node)],
            T::RING_PAYLOAD_CAPACITY as nat,
            T::KIND,
            history,
        ),
        from <= history.len(),
    ensures
        walk_frames(view.lane::<T>(node), from) == lane_frames(ring, node, from),
        walk_overwritten(view.lane::<T>(node), from) == lane_overwritten(ring, node, from),
        walk_unavailable(view.lane::<T>(node), from) == lane_unavailable(ring, node, from),
{
    law_shared_walk_replays_history::<T>(view, node, history, from);
    law_lane_walk_replays_history(ring, node, history, from);
}

/// A walk of one lane from its own head finds nothing.
proof fn lemma_walk_at_head(lane: SourceView, from: u64)
    requires
        from == lane.head,
    ensures
        walk_frames(lane, from) == Seq::<FrameView>::empty(),
        walk_overwritten(lane, from) == 0,
        walk_unavailable(lane, from) == 0,
{
}

proof fn lemma_walks_after_publication<T: OrbitTyped>(
    view: ShmFleetView,
    after: ShmFleetView,
    frame: FrameView,
    nodes: nat,
)
    requires
        view.wf(),
        view.attached::<T>(),
        T::RING_TOPOLOGY == RingTopology::PerNode,
        view.lane_head::<T>(view.node) < 0x100_0000_0000,
        frame.payload.len() <= T::RING_PAYLOAD_CAPACITY,
        frame.id == crate::id::NetId64::of(T::KIND, view.node, view.lane_head::<T>(view.node)),
        after == view.with_ring::<T>(view.ring::<T>().publish(view.node as int, frame)),
        nodes <= view.capacity,
    ensures
        ({
            let lanes = shm_lanes::<T>(after);
            let positions = shm_lane_heads::<T>(view);
            &&& walks_frames(lanes, positions, nodes) == if view.node < nodes {
                seq![frame]
            } else {
                Seq::empty()
            }
            &&& walks_overwritten(lanes, positions, nodes) == 0
            &&& walks_unavailable(lanes, positions, nodes) == 0
        }),
    decreases nodes,
{
    if nodes > 0 {
        lemma_walks_after_publication::<T>(view, after, frame, (nodes - 1) as nat);
        let lanes = shm_lanes::<T>(after);
        let positions = shm_lane_heads::<T>(view);
        let last = (nodes - 1) as u16;
        let ring = view.ring::<T>();
        let head = ring.lanes[last as int].head;
        let before = walks_frames(lanes, positions, (nodes - 1) as nat);
        assert(positions[last as int] == head);
        let lane = after.lane::<T>(last);
        assert(lanes(last) == lane);
        if last == view.node {
            let capacity = T::RING_CAPACITY as int;
            lemma_pack(T::KIND, view.node, head);
            vstd::arithmetic::div_mod::lemma_mod_bound(head as int, capacity);
            let slot = ring.lanes[last as int].slots[head as int % capacity];
            assert(slot.payload.len() == T::RING_PAYLOAD_CAPACITY);
            law_commit_then_frame(slot, head, frame);
            assert(lane.head == head + 1);
            assert(lane.state(head as int) == ReadView::Ready(frame));
            assert(lane.walk_start(head) == head);
            assert(lane.collected(head as int, head as int) =~= Seq::<FrameView>::empty());
            assert(lane.collected(head as int, head + 1) =~= seq![frame]);
            assert(before + seq![frame] =~= seq![frame]);
        } else {
            assert(after.ring::<T>().lanes[last as int] == ring.lanes[last as int]);
            lemma_walk_at_head(lane, head);
            assert(before + Seq::<FrameView>::empty() =~= before);
        }
    }
}

/// A subscriber that was at the head of every lane reads exactly the frame that
/// is published next, and misses nothing.
pub proof fn law_shared_publish_then_poll<T: OrbitTyped>(
    view: ShmFleetView,
    frame_kind: u8,
    ver: u64,
    payload: Seq<u8>,
)
    requires
        view.wf(),
        view.attached::<T>(),
        T::RING_TOPOLOGY == RingTopology::PerNode,
        view.lane_head::<T>(view.node) < 0x100_0000_0000,
        payload.len() <= T::RING_PAYLOAD_CAPACITY,
    ensures
        ({
            let ring = view.ring::<T>();
            let frame = ring.next_frame(view.node, frame_kind, ver, payload);
            let after = view.with_ring::<T>(
                ring.publish(declared::<T>().lane_of(view.node), frame),
            );
            let lanes = shm_lanes::<T>(after);
            let positions = shm_lane_heads::<T>(view);
            &&& walks_frames(lanes, positions, positions.len()) == seq![frame]
            &&& walks_overwritten(lanes, positions, positions.len()) == 0
            &&& walks_unavailable(lanes, positions, positions.len()) == 0
        }),
{
    let ring = view.ring::<T>();
    let frame = ring.next_frame(view.node, frame_kind, ver, payload);
    let after = view.with_ring::<T>(ring.publish(view.node as int, frame));
    lemma_walks_after_publication::<T>(view, after, frame, view.capacity as nat);
}

/// The handle on rings of one process that a handle on shared rings stands for.
pub open spec fn as_fleet(view: ShmFleetView) -> FleetView {
    FleetView {
        name: view.name,
        capacity: view.capacity,
        node: view.node,
        ids: view.ids,
        rings: view.rings.map_values(|ring: ShmView| as_ring(ring)),
    }
}

/// A handle on shared rings is as well formed as the one that it stands for.
pub proof fn law_shared_fleet_is_a_fleet(view: ShmFleetView)
    requires
        view.wf(),
    ensures
        as_fleet(view).wf(),
{
    let fleet = as_fleet(view);
    assert forall|kind: u8| #[trigger] fleet.rings.contains_key(kind) implies ring_fits(
        fleet.rings[kind],
        kind,
        fleet.capacity,
    ) by {
        assert(view.rings.contains_key(kind));
        let ring = view.rings[kind];
        assert forall|lane: int| 0 <= lane < ring.lanes.len() implies (
        #[trigger] as_ring(ring).lanes[lane]).slots.len() == ring.geometry.spec.capacity by {
            assert(ring.lanes[lane].slots.len() == ring.geometry.spec.capacity);
        }
    }
}

/// A member publishes on shared rings what it publishes on rings of its own: the
/// same id, and afterwards the rings that the publication leaves there.
pub proof fn law_shared_publish_is_publish<T: OrbitTyped>(
    view: ShmFleetView,
    frame_kind: u8,
    ver: u64,
    payload: Seq<u8>,
)
    requires
        view.wf(),
        view.attached::<T>(),
        view.lane_head::<T>(view.node) < LAST_COUNTER,
        payload.len() <= T::RING_PAYLOAD_CAPACITY,
    ensures
        ({
            let fleet = as_fleet(view);
            let ring = fleet.ring::<T>();
            let frame = ring.next_frame(view.node, frame_kind, ver, payload);
            let lane = declared::<T>().lane_of(view.node);
            &&& view.ring::<T>().next_frame(view.node, frame_kind, ver, payload) == frame
            &&& as_fleet(view.with_ring::<T>(view.ring::<T>().publish(lane, frame)))
                == fleet.with_ring::<T>(ring.append(lane, frame))
        }),
{
    let shared = view.ring::<T>();
    law_next_frames_agree(shared, view.node, frame_kind, ver, payload);
    law_publish_is_append(shared, view.node, frame_kind, ver, payload);
    let frame = shared.next_frame(view.node, frame_kind, ver, payload);
    let lane = declared::<T>().lane_of(view.node);
    let after = view.with_ring::<T>(shared.publish(lane, frame));
    let fleet = as_fleet(view);
    assert(as_fleet(after).rings =~= fleet.with_ring::<T>(
        fleet.ring::<T>().append(lane, frame),
    ).rings);
}

/// A member finds under an id on shared rings what it finds on rings of its own,
/// while nothing is in flight.
pub proof fn law_shared_read_is_read(view: ShmFleetView, id: NetId64)
    requires
        view.wf(),
        forall|kind: u8| #[trigger] view.rings.contains_key(kind) ==> settled(view.rings[kind]),
    ensures
        view.found(id) == if as_fleet(view).rings.contains_key(kind_of(id.0)) {
            as_fleet(view).rings[kind_of(id.0)].lookup(id)
        } else {
            None
        },
{
    if view.rings.contains_key(kind_of(id.0)) {
        let ring = view.rings[kind_of(id.0)];
        law_lookups_agree(ring, id);
        if ring.geometry.serves(node_of(id.0)) {
            let lane = ring.geometry.spec.lane_of(node_of(id.0));
            vstd::arithmetic::div_mod::lemma_mod_bound(
                counter_of(id.0) as int,
                ring.geometry.spec.capacity as int,
            );
            assert(as_ring(ring).lanes[lane].slots.len() == ring.geometry.spec.capacity);
            assert(as_ring(ring).lanes[lane].at(counter_of(id.0)) == ring.slot(
                lane,
                counter_of(id.0),
            ).frame());
        }
    }
}

proof fn lemma_walks_collect_alike<T: OrbitTyped>(view: ShmFleetView, node: u16, from: int, to: int)
    requires
        view.wf(),
        view.attached::<T>(),
        node < view.capacity,
        settled(view.ring::<T>()),
        0 <= from,
        to <= view.lane_head::<T>(node),
    ensures
        view.lane::<T>(node).collected(from, to) == gathered(
            as_ring(view.ring::<T>()),
            node,
            from,
            to,
        ),
    decreases to - from,
{
    if from < to {
        lemma_walks_collect_alike::<T>(view, node, from, to - 1);
        assert(view.ring::<T>().lanes[declared::<T>().lane_of(node)].head <= 0x100_0000_0000);
        law_walks_agree(view.ring::<T>(), node, (to - 1) as u64);
    }
}

/// A member reads on shared rings what it reads on rings of its own: a walk of a
/// node's lane gives the same frames and the same losses, while nothing is in
/// flight.
pub proof fn law_shared_walk_is_walk<T: OrbitTyped>(view: ShmFleetView, node: u16, from: u64)
    requires
        view.wf(),
        view.attached::<T>(),
        node < view.capacity,
        settled(view.ring::<T>()),
    ensures
        ({
            let ring = as_fleet(view).ring::<T>();
            let lane = view.lane::<T>(node);
            &&& walk_frames(lane, from) == lane_frames(ring, node, from)
            &&& walk_overwritten(lane, from) == lane_overwritten(ring, node, from)
            &&& walk_unavailable(lane, from) == lane_unavailable(ring, node, from)
        }),
{
    let ring = as_fleet(view).ring::<T>();
    let lane = view.lane::<T>(node);
    assert(ring == as_ring(view.ring::<T>()));
    if from < lane.head {
        lemma_walks_collect_alike::<T>(view, node, lane.walk_start(from), lane.head as int);
    } else {
        assert(lane_frames(ring, node, from) =~= Seq::<FrameView>::empty());
    }
}

/// Who can join a fleet over shared memory: a node that is inside it.
pub proof fn law_nodes_join_the_shared_fleet_they_are_in(
    name: Seq<char>,
    capacity: u16,
    node: u16,
    fleet: Result<ShmFleet, Error>,
)
    requires
        joined_shm(name, capacity, node, fleet),
    ensures
        fleet is Ok <==> node < capacity,
        capacity == 0 ==> fleet == Err::<ShmFleet, Error>(Error::EmptyFleet),
        fleet matches Ok(fleet) ==> fleet@.name == name && fleet@.capacity == capacity
            && fleet@.node == node,
{
}

/// A batch over shared memory gives an id for each payload, one behind the other, of the
/// ring and of the member that publishes.
pub proof fn law_shared_batch_ids_go_on_from_the_head(
    ring: ShmView,
    node: u16,
    count: nat,
    i: int,
)
    requires
        0 <= i < count,
        ring.lanes[ring.geometry.spec.lane_of(node)].head + count <= 0x100_0000_0000,
    ensures
        ({
            let ids = shm_batch_ids(ring, node, count);
            &&& ids.len() == count
            &&& kind_of(ids[i].0) == ring.geometry.kind
            &&& node_of(ids[i].0) == node
            &&& counter_of(ids[i].0) == ring.lanes[ring.geometry.spec.lane_of(node)].head + i
        }),
{
    lemma_pack(
        ring.geometry.kind,
        node,
        (ring.lanes[ring.geometry.spec.lane_of(node)].head + i) as u64,
    );
}

/// A notification changes the word that waiters watch, and nothing else of the ring.
pub proof fn law_notification_changes_its_word_alone(ring: ShmView)
    ensures
        notified(ring).notification != ring.notification,
        notified(ring).lanes == ring.lanes,
        notified(ring).version == ring.version,
        notified(ring).geometry == ring.geometry,
{
}

} // verus!
