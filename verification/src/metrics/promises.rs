//! What a collector of snapshots may rely on, in terms of the frames of the lanes.
use vstd::prelude::*;

use crate::fleet::{lemma_ring_fits, FleetView};
use crate::id::{counter_of, node_of};
use crate::metrics::laws::{
    keys_differ, law_lanes_speak_for_themselves, law_newest_key_wins, law_newest_sample_wins,
    law_one_sample_per_node, law_only_fresh_samples, lemma_key_from, lemma_picked_was_seen,
    outdone,
};
use crate::metrics::{
    by_node, first_of_node, fresh_of, key_from, lane_samples, latest_keys,
    latest_nodes, newer, own_samples, visible, with_samples, OrbitMetricKeyedSnapshot,
    OrbitMetricSample, OrbitMetricSnapshot,
};
use crate::ring::{LaneView, RingTopology, RingView};
use crate::typed::declared;

verus! {

/// True when a counter of a lane was published and has not left the window since.
pub open spec fn retained(lane: LaneView, capacity: usize, counter: int) -> bool {
    0 <= counter < lane.head && lane.head - counter <= capacity
}

/// True when the frame of a lane at a counter spells this sample.
pub open spec fn tells<T: OrbitMetricSnapshot>(
    lane: LaneView,
    counter: int,
    sample: OrbitMetricSample<T>,
) -> bool {
    lane.at(counter as u64) matches Some(frame) && frame.id == sample.id && T::of_payload(
        frame.payload,
    ) == Some(sample.snapshot)
}

/// True when the frame of a lane at a counter spells this sample of a node, and no frame
/// behind it spells one of the node.
pub open spec fn newest_of_node<T: OrbitMetricSnapshot>(
    lane: LaneView,
    counter: int,
    sample: OrbitMetricSample<T>,
    node: u16,
) -> bool {
    &&& tells(lane, counter, sample)
    &&& sample.snapshot.node() == node
    &&& forall|later: int, other: OrbitMetricSample<T>|
        counter < later < lane.head && #[trigger] tells(lane, later, other)
            ==> other.snapshot.node() != node
}

/// A collector looks at every frame of a lane that was not overwritten, the newest one
/// first, and at nothing else, however many were published before.
pub proof fn law_every_retained_frame_is_looked_at<T: OrbitMetricSnapshot>(
    lane: LaneView,
    capacity: usize,
    counter: int,
    sample: OrbitMetricSample<T>,
)
    ensures
        retained(lane, capacity, counter) ==> {
            let seen = visible::<T>(lane, capacity);
            let i = lane.head - 1 - counter;
            &&& 0 <= i < seen.len()
            &&& seen[i] == Some(sample) <==> tells(lane, counter, sample)
        },
        forall|i: int|
            0 <= i < visible::<T>(lane, capacity).len() ==> {
                &&& #[trigger] retained(lane, capacity, lane.head - 1 - i)
            },
{
}

proof fn lemma_seen_is_told<T: OrbitMetricSnapshot>(lane: LaneView, capacity: usize, i: int)
    requires
        0 <= i < visible::<T>(lane, capacity).len(),
        visible::<T>(lane, capacity)[i] is Some,
    ensures
        retained(lane, capacity, lane.head - 1 - i),
        tells(lane, lane.head - 1 - i, visible::<T>(lane, capacity)[i]->0),
{
    law_every_retained_frame_is_looked_at::<T>(
        lane,
        capacity,
        lane.head - 1 - i,
        visible::<T>(lane, capacity)[i]->0,
    );
}

proof fn lemma_by_node<T: OrbitMetricSnapshot>(samples: Seq<OrbitMetricSample<T>>)
    requires
        forall|i: int, j: int|
            0 <= i < samples.len() && 0 <= j < samples.len() && i != j ==> (
            #[trigger] samples[i]).snapshot.node() != (#[trigger] samples[j]).snapshot.node(),
    ensures
        forall|i: int|
            0 <= i < samples.len() ==> by_node(samples).contains_pair(
                (#[trigger] samples[i]).snapshot.node(),
                samples[i],
            ),
        forall|node: u16| #[trigger]
            by_node(samples).contains_key(node) ==> by_node(samples)[node].snapshot.node() == node
                && samples.contains(by_node(samples)[node]),
    decreases samples.len(),
{
    if samples.len() > 0 {
        let shorter = samples.drop_last();
        assert forall|i: int, j: int|
            0 <= i < shorter.len() && 0 <= j < shorter.len() && i != j implies (
        #[trigger] shorter[i]).snapshot.node() != (#[trigger] shorter[j]).snapshot.node() by {
            assert(shorter[i] == samples[i] && shorter[j] == samples[j]);
        }
        lemma_by_node(shorter);
        assert forall|i: int| 0 <= i < samples.len() implies by_node(samples).contains_pair(
            (#[trigger] samples[i]).snapshot.node(),
            samples[i],
        ) by {
            if i < shorter.len() {
                assert(shorter[i] == samples[i]);
                assert(samples[i].snapshot.node() != samples[samples.len() - 1].snapshot.node());
            }
        }
        assert forall|node: u16| #[trigger] by_node(samples).contains_key(node) implies by_node(
            samples,
        )[node].snapshot.node() == node && samples.contains(by_node(samples)[node]) by {
            if node == samples.last().snapshot.node() {
                assert(samples[samples.len() - 1] == by_node(samples)[node]);
            } else {
                assert(by_node(shorter).contains_key(node));
                let k = choose|k: int|
                    0 <= k < shorter.len() && shorter[k] == by_node(shorter)[node];
                assert(samples[k] == by_node(samples)[node]);
            }
        }
    }
}

/// The first sample of a node in a window is found.
proof fn lemma_first_found<T: OrbitMetricSnapshot>(
    seen: Seq<Option<OrbitMetricSample<T>>>,
    node: u16,
    from: int,
    i: int,
)
    requires
        0 <= from <= i < seen.len(),
        seen[i] is Some,
        (seen[i]->0).snapshot.node() == node,
        forall|j: int|
            from <= j < i && (#[trigger] seen[j]) is Some ==> (seen[j]->0).snapshot.node() != node,
    ensures
        first_of_node(seen, node, from) == seen[i],
    decreases seen.len() - from,
{
    if from < i {
        lemma_first_found(seen, node, from + 1, i);
    }
}

/// What is found for a node is the first of its samples in the window.
proof fn lemma_found_is_first<T: OrbitMetricSnapshot>(
    seen: Seq<Option<OrbitMetricSample<T>>>,
    node: u16,
    from: int,
) -> (i: int)
    requires
        0 <= from,
        first_of_node(seen, node, from) is Some,
    ensures
        from <= i < seen.len(),
        seen[i] == first_of_node(seen, node, from),
        (seen[i]->0).snapshot.node() == node,
        forall|j: int|
            from <= j < i && (#[trigger] seen[j]) is Some ==> (seen[j]->0).snapshot.node() != node,
    decreases seen.len() - from,
{
    if seen[from] is Some && (seen[from]->0).snapshot.node() == node {
        from
    } else {
        lemma_found_is_first(seen, node, from + 1)
    }
}

/// Each lane gives the sample that is found for its own node.
proof fn lemma_own_samples<T: OrbitMetricSnapshot>(ring: RingView, capacity: usize, nodes: nat)
    requires
        nodes <= u16::MAX,
    ensures
        forall|node: int|
            0 <= node < nodes && first_of_node(
                #[trigger] visible::<T>(ring.lanes[node], capacity),
                node as u16,
                0,
            ) is Some ==> own_samples::<T>(ring, capacity, nodes).contains(
                first_of_node(visible::<T>(ring.lanes[node], capacity), node as u16, 0)->0,
            ),
        forall|k: int|
            0 <= k < own_samples::<T>(ring, capacity, nodes).len() ==> {
                let sample = #[trigger] own_samples::<T>(ring, capacity, nodes)[k];
                let node = sample.snapshot.node();
                &&& node < nodes
                &&& first_of_node(visible::<T>(ring.lanes[node as int], capacity), node, 0) == Some(
                    sample,
                )
            },
    decreases nodes,
{
    if nodes > 0 {
        let before = own_samples::<T>(ring, capacity, (nodes - 1) as nat);
        let all = own_samples::<T>(ring, capacity, nodes);
        lemma_own_samples::<T>(ring, capacity, (nodes - 1) as nat);
        let last = first_of_node(
            visible::<T>(ring.lanes[nodes - 1], capacity),
            (nodes - 1) as u16,
            0,
        );
        if last is Some {
            let _ = lemma_found_is_first(
                visible::<T>(ring.lanes[nodes - 1], capacity),
                (nodes - 1) as u16,
                0,
            );
        }
        assert forall|node: int|
            0 <= node < nodes && first_of_node(
                #[trigger] visible::<T>(ring.lanes[node], capacity),
                node as u16,
                0,
            ) is Some implies all.contains(
            first_of_node(visible::<T>(ring.lanes[node], capacity), node as u16, 0)->0,
        ) by {
            let found = first_of_node(visible::<T>(ring.lanes[node], capacity), node as u16, 0)->0;
            if node < nodes - 1 {
                assert(before.contains(found));
                let k = choose|k: int| 0 <= k < before.len() && before[k] == found;
                assert(all[k] == found);
            } else {
                assert(all[all.len() - 1] == found);
            }
        }
        assert forall|k: int| 0 <= k < all.len() implies {
            let sample = #[trigger] all[k];
            let node = sample.snapshot.node();
            &&& node < nodes
            &&& first_of_node(visible::<T>(ring.lanes[node as int], capacity), node, 0) == Some(
                sample,
            )
        } by {
            if k < before.len() {
                assert(before[k] == all[k]);
            }
        }
    }
}

proof fn lemma_latest_nodes_differ<T: OrbitMetricSnapshot>(fleet: FleetView)
    ensures
        forall|i: int, j: int|
            0 <= i < latest_nodes::<T>(fleet).len() && 0 <= j < latest_nodes::<T>(fleet).len() && i
                != j ==> (#[trigger] latest_nodes::<T>(fleet)[i]).snapshot.node() != (
            #[trigger] latest_nodes::<T>(fleet)[j]).snapshot.node(),
{
    let all = latest_nodes::<T>(fleet);
    if T::RING_TOPOLOGY == RingTopology::PerNode {
        law_lanes_speak_for_themselves::<T>(
            fleet.ring::<T>(),
            T::RING_CAPACITY,
            fleet.capacity as nat,
        );
        assert forall|i: int, j: int|
            0 <= i < all.len() && 0 <= j < all.len() && i != j implies (
        #[trigger] all[i]).snapshot.node() != (#[trigger] all[j]).snapshot.node() by {
            if i < j {
                assert(all[i].snapshot.node() < all[j].snapshot.node());
            } else {
                assert(all[j].snapshot.node() < all[i].snapshot.node());
            }
        }
    } else {
        law_one_sample_per_node(visible::<T>(fleet.own_lane::<T>(), T::RING_CAPACITY));
    }
}

/// The newest snapshot of a node that was not overwritten, in the lane that speaks for
/// the node, is the node's entry, however many frames were published before it. That
/// lane is the node's own one, or the one that all share.
pub proof fn law_newest_snapshot_is_the_entry<T: OrbitMetricSnapshot>(
    fleet: FleetView,
    counter: int,
    sample: OrbitMetricSample<T>,
)
    requires
        ({
            let node = sample.snapshot.node();
            let lane = fleet.ring::<T>().lanes[declared::<T>().lane_of(node)];
            &&& T::RING_TOPOLOGY == RingTopology::PerNode ==> node < fleet.capacity
            &&& retained(lane, T::RING_CAPACITY, counter)
            &&& newest_of_node(lane, counter, sample, node)
        }),
    ensures
        by_node(latest_nodes::<T>(fleet)).contains_pair(sample.snapshot.node(), sample),
{
    let node = sample.snapshot.node();
    let lane = fleet.ring::<T>().lanes[declared::<T>().lane_of(node)];
    let capacity = T::RING_CAPACITY;
    let seen = visible::<T>(lane, capacity);
    let i = lane.head - 1 - counter;
    law_every_retained_frame_is_looked_at::<T>(lane, capacity, counter, sample);
    assert forall|j: int| 0 <= j < i && (#[trigger] seen[j]) is Some implies (
    seen[j]->0).snapshot.node() != node by {
        lemma_seen_is_told::<T>(lane, capacity, j);
    }
    let all = latest_nodes::<T>(fleet);
    lemma_latest_nodes_differ::<T>(fleet);
    lemma_by_node(all);
    if T::RING_TOPOLOGY == RingTopology::PerNode {
        lemma_first_found(seen, node, 0, i);
        lemma_own_samples::<T>(fleet.ring::<T>(), capacity, fleet.capacity as nat);
        assert(fleet.ring::<T>().lanes[node as int] == lane);
        assert(first_of_node(
            visible::<T>(fleet.ring::<T>().lanes[node as int], capacity),
            node as int as u16,
            0,
        ) == Some(sample));
    } else {
        law_newest_sample_wins(seen, i);
    }
    assert(all.contains(sample));
    let k = choose|k: int| 0 <= k < all.len() && all[k] == sample;
    assert(by_node(all).contains_pair(all[k].snapshot.node(), all[k]));
}

/// Whatever is a node's entry is told by the lane that speaks for the node, in a frame
/// that was not overwritten, and no frame behind it tells another one of the node.
pub proof fn law_entry_is_the_newest_snapshot<T: OrbitMetricSnapshot>(
    fleet: FleetView,
    node: u16,
) -> (counter: int)
    requires
        by_node(latest_nodes::<T>(fleet)).contains_key(node),
    ensures
        ({
            let sample = by_node(latest_nodes::<T>(fleet))[node];
            let lane = fleet.ring::<T>().lanes[declared::<T>().lane_of(node)];
            &&& T::RING_TOPOLOGY == RingTopology::PerNode ==> node < fleet.capacity
            &&& retained(lane, T::RING_CAPACITY, counter)
            &&& newest_of_node(lane, counter, sample, node)
        }),
{
    let all = latest_nodes::<T>(fleet);
    let capacity = T::RING_CAPACITY;
    lemma_latest_nodes_differ::<T>(fleet);
    lemma_by_node(all);
    let sample = by_node(all)[node];
    let lane = fleet.ring::<T>().lanes[declared::<T>().lane_of(node)];
    let seen = visible::<T>(lane, capacity);
    let k = choose|k: int| 0 <= k < all.len() && all[k] == sample;
    let i = if T::RING_TOPOLOGY == RingTopology::PerNode {
        lemma_own_samples::<T>(fleet.ring::<T>(), capacity, fleet.capacity as nat);
        assert(own_samples::<T>(fleet.ring::<T>(), capacity, fleet.capacity as nat)[k] == sample);
        lemma_found_is_first(seen, node, 0)
    } else {
        lemma_picked_was_seen(seen, k);
        let any = choose|j: int| 0 <= j < seen.len() && (#[trigger] seen[j]) == Some(sample);
        let first = lemma_first_index(seen, node, any);
        law_newest_sample_wins(seen, first);
        let m = choose|m: int| 0 <= m < all.len() && all[m] == seen[first]->0;
        assert(all[m].snapshot.node() == all[k].snapshot.node());
        first
    };
    lemma_seen_is_told::<T>(lane, capacity, i);
    let counter = lane.head - 1 - i;
    assert forall|later: int, other: OrbitMetricSample<T>|
        counter < later < lane.head && #[trigger] tells(lane, later, other) implies
        other.snapshot.node() != node by {
        law_every_retained_frame_is_looked_at::<T>(lane, capacity, later, other);
        assert(seen[lane.head - 1 - later] == Some(other));
    }
    counter
}

/// Among samples of a node there is a first one.
proof fn lemma_first_index<T: OrbitMetricSnapshot>(
    seen: Seq<Option<OrbitMetricSample<T>>>,
    node: u16,
    any: int,
) -> (i: int)
    requires
        0 <= any < seen.len(),
        seen[any] is Some,
        (seen[any]->0).snapshot.node() == node,
    ensures
        0 <= i <= any,
        seen[i] is Some,
        (seen[i]->0).snapshot.node() == node,
        forall|j: int|
            0 <= j < i && (#[trigger] seen[j]) is Some ==> (seen[j]->0).snapshot.node() != node,
    decreases any,
{
    if exists|j: int|
        0 <= j < any && (#[trigger] seen[j]) is Some && (seen[j]->0).snapshot.node() == node {
        let j = choose|j: int|
            0 <= j < any && (#[trigger] seen[j]) is Some && (seen[j]->0).snapshot.node() == node;
        lemma_first_index(seen, node, j)
    } else {
        any
    }
}

/// A snapshot that was just published by the lane that speaks for its node is the node's
/// entry, under the id that the publication gave, however many were published before.
pub proof fn law_published_snapshot_is_the_entry<T: OrbitMetricSnapshot>(
    fleet: FleetView,
    ver: u64,
    payload: Seq<u8>,
    snapshot: T,
)
    requires
        fleet.wf(),
        fleet.usable::<T>(),
        fleet.own_lane::<T>().head < u64::MAX,
        T::of_payload(payload) == Some(snapshot),
        T::RING_TOPOLOGY == RingTopology::PerNode ==> snapshot.node() == fleet.node,
    ensures
        ({
            let ring = fleet.ring::<T>();
            let frame = ring.next_frame(fleet.node, 0, ver, payload);
            let after = fleet.with_ring::<T>(ring.append(ring.spec.lane_of(fleet.node), frame));
            by_node(latest_nodes::<T>(after)).contains_pair(
                snapshot.node(),
                OrbitMetricSample { id: frame.id, snapshot },
            )
        }),
{
    lemma_ring_fits::<T>(fleet);
    let ring = fleet.ring::<T>();
    let own = ring.spec.lane_of(fleet.node);
    let frame = ring.next_frame(fleet.node, 0, ver, payload);
    let after = fleet.with_ring::<T>(ring.append(own, frame));
    let sample = OrbitMetricSample { id: frame.id, snapshot };
    let node = snapshot.node();
    let head = ring.lanes[own].head;
    assert(after.ring::<T>() == ring.append(own, frame));
    let lane = after.ring::<T>().lanes[declared::<T>().lane_of(node)];
    assert(declared::<T>().lane_of(node) == own);
    assert(ring.lanes[own].slots.len() == T::RING_CAPACITY);
    vstd::arithmetic::div_mod::lemma_mod_bound(head as int, T::RING_CAPACITY as int);
    assert(lane.at(head) == Some(frame));
    assert(lane.head == head + 1);
    assert(tells(lane, head as int, sample));
    law_newest_snapshot_is_the_entry::<T>(after, head as int, sample);
}

/// Which of two samples is the newer one: the one that was taken later. Of two that were
/// taken at one time, the one of the higher node or, of one node, of the later frame.
pub proof fn law_newer_is_taken_later<T: OrbitMetricSnapshot>(
    one: OrbitMetricSample<T>,
    other: OrbitMetricSample<T>,
)
    ensures
        one.snapshot.captured() > other.snapshot.captured() ==> newer(one, other),
        newer(one, other) ==> one.snapshot.captured() >= other.snapshot.captured(),
        !(newer(one, other) && newer(other, one)),
        one.snapshot.captured() == other.snapshot.captured() && node_of(one.id.0) > node_of(
            other.id.0,
        ) ==> newer(one, other),
        one.snapshot.captured() == other.snapshot.captured() && node_of(one.id.0) == node_of(
            other.id.0,
        ) ==> (newer(one, other) <==> counter_of(one.id.0) > counter_of(other.id.0)),
{
}

/// What is fresh: exactly those of the samples that were taken no longer ago than this,
/// in their order. A sample from the future is fresh.
pub proof fn law_fresh_is_taken_recently<T: OrbitMetricSnapshot>(
    samples: Seq<OrbitMetricSample<T>>,
    now: u64,
    max_age: u64,
    sample: OrbitMetricSample<T>,
)
    ensures
        fresh_of(samples, now, max_age).contains(sample) <==> samples.contains(sample) && now
            <= sample.snapshot.captured() + max_age,
        fresh_of(samples, now, max_age) == samples.filter(
            |item: OrbitMetricSample<T>| now <= item.snapshot.captured() + max_age,
        ),
    decreases samples.len(),
{
    reveal(Seq::filter);
    law_only_fresh_samples(samples, now, max_age);
    let fresh = fresh_of(samples, now, max_age);
    if samples.len() > 0 {
        let shorter = samples.drop_last();
        law_fresh_is_taken_recently(shorter, now, max_age, sample);
        if fresh.contains(sample) {
            let k = choose|k: int| 0 <= k < fresh.len() && fresh[k] == sample;
            if k < fresh_of(shorter, now, max_age).len() {
                assert(fresh_of(shorter, now, max_age)[k] == sample);
                let m = choose|m: int| 0 <= m < shorter.len() && shorter[m] == sample;
                assert(samples[m] == sample);
            } else {
                assert(samples[samples.len() - 1] == sample);
            }
            assert(sample.age(now) <= max_age);
        }
        if samples.contains(sample) && now <= sample.snapshot.captured() + max_age {
            let m = choose|m: int| 0 <= m < samples.len() && samples[m] == sample;
            assert(samples[m].age(now) <= max_age);
        }
    }
}

/// A node has a fresh entry exactly where its entry was taken recently.
pub proof fn law_fresh_entries_are_recent_entries<T: OrbitMetricSnapshot>(
    fleet: FleetView,
    now: u64,
    max_age: u64,
    node: u16,
    sample: OrbitMetricSample<T>,
)
    ensures
        by_node(fresh_of(latest_nodes::<T>(fleet), now, max_age)).contains_pair(node, sample)
            <==> by_node(latest_nodes::<T>(fleet)).contains_pair(node, sample) && now
            <= sample.snapshot.captured() + max_age,
{
    let all = latest_nodes::<T>(fleet);
    let fresh = fresh_of(all, now, max_age);
    lemma_latest_nodes_differ::<T>(fleet);
    lemma_by_node(all);
    lemma_fresh_nodes_differ(all, now, max_age);
    lemma_by_node(fresh);
    law_fresh_is_taken_recently(all, now, max_age, sample);
    if by_node(fresh).contains_pair(node, sample) {
        assert(by_node(fresh).contains_key(node));
        let k = choose|k: int| 0 <= k < all.len() && all[k] == sample;
        assert(by_node(all).contains_pair(all[k].snapshot.node(), all[k]));
    }
    if by_node(all).contains_pair(node, sample) && now <= sample.snapshot.captured() + max_age {
        assert(by_node(all).contains_key(node));
        let k = choose|k: int| 0 <= k < fresh.len() && fresh[k] == sample;
        assert(by_node(fresh).contains_pair(fresh[k].snapshot.node(), fresh[k]));
    }
}

proof fn lemma_fresh_nodes_differ<T: OrbitMetricSnapshot>(
    samples: Seq<OrbitMetricSample<T>>,
    now: u64,
    max_age: u64,
)
    requires
        forall|i: int, j: int|
            0 <= i < samples.len() && 0 <= j < samples.len() && i != j ==> (
            #[trigger] samples[i]).snapshot.node() != (#[trigger] samples[j]).snapshot.node(),
    ensures
        ({
            let fresh = fresh_of(samples, now, max_age);
            forall|i: int, j: int|
                0 <= i < fresh.len() && 0 <= j < fresh.len() && i != j ==> (
                #[trigger] fresh[i]).snapshot.node() != (#[trigger] fresh[j]).snapshot.node()
        }),
    decreases samples.len(),
{
    if samples.len() > 0 {
        let shorter = samples.drop_last();
        assert forall|i: int, j: int|
            0 <= i < shorter.len() && 0 <= j < shorter.len() && i != j implies (
        #[trigger] shorter[i]).snapshot.node() != (#[trigger] shorter[j]).snapshot.node() by {
            assert(shorter[i] == samples[i] && shorter[j] == samples[j]);
        }
        lemma_fresh_nodes_differ(shorter, now, max_age);
        let before = fresh_of(shorter, now, max_age);
        let fresh = fresh_of(samples, now, max_age);
        assert forall|i: int, j: int|
            0 <= i < fresh.len() && 0 <= j < fresh.len() && i != j implies (
        #[trigger] fresh[i]).snapshot.node() != (#[trigger] fresh[j]).snapshot.node() by {
            let last = samples[samples.len() - 1];
            if i < before.len() && j < before.len() {
                assert(before[i] == fresh[i] && before[j] == fresh[j]);
            } else {
                let k = if i < before.len() {
                    i
                } else {
                    j
                };
                assert(before[k] == fresh[k]);
                law_fresh_is_taken_recently(shorter, now, max_age, before[k]);
                assert(before.contains(before[k]));
                let m = choose|m: int| 0 <= m < shorter.len() && shorter[m] == before[k];
                assert(samples[m] == before[k]);
                assert(samples[m].snapshot.node() != last.snapshot.node());
            }
        }
    }
}

/// Whatever is held for a key was held before, or was seen in the window.
proof fn lemma_held_was_seen<T: OrbitMetricKeyedSnapshot>(
    samples: Seq<OrbitMetricSample<T>>,
    seen: Seq<Option<OrbitMetricSample<T>>>,
    replace: bool,
    k: int,
)
    requires
        0 <= k < with_samples(samples, seen, replace).len(),
    ensures
        samples.contains(with_samples(samples, seen, replace)[k]) || seen.contains(
            Some(with_samples(samples, seen, replace)[k]),
        ),
    decreases seen.len(),
{
    let after = with_samples(samples, seen, replace);
    if seen.len() > 0 {
        let shorter = seen.drop_last();
        let before = with_samples(samples, shorter, replace);
        if seen.last() is Some {
            lemma_key_from(before, (seen.last()->0).snapshot.key(), 0);
        }
        if seen.last() == Some(after[k]) {
            assert(seen[seen.len() - 1] == Some(after[k]));
        } else {
            assert(k < before.len() && after[k] == before[k]);
            lemma_held_was_seen(samples, shorter, replace, k);
            if shorter.contains(Some(before[k])) {
                let j = choose|j: int| 0 <= j < shorter.len() && shorter[j] == Some(before[k]);
                assert(seen[j] == Some(after[k]));
            }
        }
    } else {
        assert(samples[k] == after[k]);
    }
}

proof fn lemma_lane_samples<T: OrbitMetricKeyedSnapshot>(
    ring: RingView,
    capacity: usize,
    nodes: nat,
)
    ensures
        keys_differ(lane_samples::<T>(ring, capacity, nodes)),
        forall|node: int, i: int|
            0 <= node < nodes && 0 <= i < visible::<T>(ring.lanes[node], capacity).len() && (
            #[trigger] visible::<T>(ring.lanes[node], capacity)[i]) is Some ==> outdone(
                lane_samples::<T>(ring, capacity, nodes),
                visible::<T>(ring.lanes[node], capacity)[i]->0,
            ),
        forall|k: int|
            0 <= k < lane_samples::<T>(ring, capacity, nodes).len() ==> exists|node: int|
                0 <= node < nodes && (#[trigger] visible::<T>(
                    ring.lanes[node],
                    capacity,
                )).contains(Some(#[trigger] lane_samples::<T>(ring, capacity, nodes)[k])),
    decreases nodes,
{
    if nodes > 0 {
        let before = lane_samples::<T>(ring, capacity, (nodes - 1) as nat);
        let after = lane_samples::<T>(ring, capacity, nodes);
        let seen = visible::<T>(ring.lanes[nodes - 1], capacity);
        lemma_lane_samples::<T>(ring, capacity, (nodes - 1) as nat);
        law_newest_key_wins(before, seen);
        assert forall|node: int, i: int|
            0 <= node < nodes && 0 <= i < visible::<T>(ring.lanes[node], capacity).len() && (
            #[trigger] visible::<T>(ring.lanes[node], capacity)[i]) is Some implies outdone(
            after,
            visible::<T>(ring.lanes[node], capacity)[i]->0,
        ) by {
            if node < nodes - 1 {
                assert(outdone(before, visible::<T>(ring.lanes[node], capacity)[i]->0));
            } else {
                assert(seen[i] is Some);
            }
        }
        assert forall|k: int| 0 <= k < after.len() implies exists|node: int|
            0 <= node < nodes && (#[trigger] visible::<T>(ring.lanes[node], capacity)).contains(
                Some(#[trigger] after[k]),
            ) by {
            lemma_held_was_seen(before, seen, true, k);
            if before.contains(after[k]) {
                let m = choose|m: int| 0 <= m < before.len() && before[m] == after[k];
                assert(exists|node: int|
                    0 <= node < nodes - 1 && (#[trigger] visible::<T>(
                        ring.lanes[node],
                        capacity,
                    )).contains(Some(#[trigger] before[m])));
                let node = choose|node: int|
                    0 <= node < nodes - 1 && (#[trigger] visible::<T>(
                        ring.lanes[node],
                        capacity,
                    )).contains(Some(before[m]));
                assert(visible::<T>(ring.lanes[node], capacity).contains(Some(after[k])));
            } else {
                assert(visible::<T>(ring.lanes[nodes - 1], capacity).contains(Some(after[k])));
            }
        }
    }
}

/// Across node lanes: each snapshot that was not overwritten has an entry of its key that
/// is it, or that it is not newer than.
pub proof fn law_no_snapshot_is_newer_than_its_entry<T: OrbitMetricKeyedSnapshot>(
    fleet: FleetView,
    node: u16,
    counter: int,
    sample: OrbitMetricSample<T>,
) -> (i: int)
    requires
        T::RING_TOPOLOGY == RingTopology::PerNode,
        node < fleet.capacity,
        retained(fleet.ring::<T>().lanes[node as int], T::RING_CAPACITY, counter),
        tells(fleet.ring::<T>().lanes[node as int], counter, sample),
    ensures
        0 <= i < latest_keys::<T>(fleet).len(),
        latest_keys::<T>(fleet)[i].snapshot.key() == sample.snapshot.key(),
        !newer(sample, latest_keys::<T>(fleet)[i]),
        latest_keys::<T>(fleet)[i].snapshot.captured() >= sample.snapshot.captured(),
{
    let ring = fleet.ring::<T>();
    let lane = ring.lanes[node as int];
    let all = latest_keys::<T>(fleet);
    lemma_lane_samples::<T>(ring, T::RING_CAPACITY, fleet.capacity as nat);
    law_every_retained_frame_is_looked_at::<T>(lane, T::RING_CAPACITY, counter, sample);
    assert(visible::<T>(ring.lanes[node as int], T::RING_CAPACITY)[lane.head - 1 - counter]
        == Some(sample));
    assert(outdone(all, sample));
    choose|i: int|
        0 <= i < all.len() && (#[trigger] all[i]).snapshot.key() == sample.snapshot.key() && !newer(
            sample,
            all[i],
        )
}

/// In a ring that all share: the snapshot of a key that was written last is its entry,
/// however many frames were published before it.
pub proof fn law_last_written_snapshot_is_the_entry<T: OrbitMetricKeyedSnapshot>(
    fleet: FleetView,
    counter: int,
    sample: OrbitMetricSample<T>,
)
    requires
        T::RING_TOPOLOGY != RingTopology::PerNode,
        retained(fleet.own_lane::<T>(), T::RING_CAPACITY, counter),
        tells(fleet.own_lane::<T>(), counter, sample),
        forall|later: int, other: OrbitMetricSample<T>|
            counter < later < fleet.own_lane::<T>().head && #[trigger] tells(
                fleet.own_lane::<T>(),
                later,
                other,
            ) ==> other.snapshot.key() != sample.snapshot.key(),
    ensures
        latest_keys::<T>(fleet).contains(sample),
{
    let lane = fleet.own_lane::<T>();
    let seen = visible::<T>(lane, T::RING_CAPACITY);
    let i = lane.head - 1 - counter;
    law_every_retained_frame_is_looked_at::<T>(lane, T::RING_CAPACITY, counter, sample);
    assert forall|j: int| 0 <= j < i && (#[trigger] seen[j]) is Some implies (
    seen[j]->0).snapshot.key() != sample.snapshot.key() by {
        lemma_seen_is_told::<T>(lane, T::RING_CAPACITY, j);
    }
    lemma_first_of_key(seen, i);
}

proof fn lemma_key_unheld<T: OrbitMetricKeyedSnapshot>(
    samples: Seq<OrbitMetricSample<T>>,
    key: <T::Key as View>::V,
    from: int,
)
    requires
        0 <= from,
        forall|k: int|
            from <= k < samples.len() ==> (#[trigger] samples[k]).snapshot.key() != key,
    ensures
        key_from(samples, key, from) is None,
    decreases samples.len() - from,
{
    if from < samples.len() {
        lemma_key_unheld(samples, key, from + 1);
    }
}

proof fn lemma_first_of_key<T: OrbitMetricKeyedSnapshot>(
    seen: Seq<Option<OrbitMetricSample<T>>>,
    i: int,
)
    requires
        0 <= i < seen.len(),
        seen[i] is Some,
        forall|j: int|
            0 <= j < i && (#[trigger] seen[j]) is Some ==> (seen[j]->0).snapshot.key() != (
            seen[i]->0).snapshot.key(),
    ensures
        with_samples(Seq::empty(), seen, false).contains(seen[i]->0),
    decreases seen.len(),
{
    let shorter = seen.drop_last();
    let before = with_samples(Seq::empty(), shorter, false);
    let after = with_samples(Seq::empty(), seen, false);
    if i < seen.len() - 1 {
        assert(shorter[i] == seen[i]);
        assert forall|j: int| 0 <= j < i && (#[trigger] shorter[j]) is Some implies (
        shorter[j]->0).snapshot.key() != (shorter[i]->0).snapshot.key() by {
            assert(seen[j] == shorter[j]);
        }
        lemma_first_of_key(shorter, i);
        let k = choose|k: int| 0 <= k < before.len() && before[k] == shorter[i]->0;
        assert(after[k] == before[k]);
    } else {
        let sample = seen[i]->0;
        assert forall|k: int| 0 <= k < before.len() implies (#[trigger] before[k]).snapshot.key()
            != sample.snapshot.key() by {
            lemma_held_was_seen(Seq::empty(), shorter, false, k);
            let j = choose|j: int| 0 <= j < shorter.len() && shorter[j] == Some(before[k]);
            assert(seen[j] == shorter[j]);
        }
        lemma_key_unheld(before, sample.snapshot.key(), 0);
        assert(after[after.len() - 1] == sample);
    }
}

/// Whatever is a key's entry is told by a frame of a lane that was not overwritten, and
/// no key has two entries.
pub proof fn law_keyed_entries_are_told<T: OrbitMetricKeyedSnapshot>(
    fleet: FleetView,
    i: int,
    j: int,
) -> (found: (int, int))
    requires
        0 <= i < latest_keys::<T>(fleet).len(),
        0 <= j < latest_keys::<T>(fleet).len(),
    ensures
        T::RING_TOPOLOGY == RingTopology::PerNode ==> 0 <= found.0 < fleet.capacity,
        T::RING_TOPOLOGY != RingTopology::PerNode ==> found.0 == 0,
        retained(fleet.ring::<T>().lanes[found.0], T::RING_CAPACITY, found.1),
        tells(fleet.ring::<T>().lanes[found.0], found.1, latest_keys::<T>(fleet)[i]),
        i != j ==> latest_keys::<T>(fleet)[i].snapshot.key() != latest_keys::<T>(
            fleet,
        )[j].snapshot.key(),
{
    let all = latest_keys::<T>(fleet);
    let ring = fleet.ring::<T>();
    let capacity = T::RING_CAPACITY;
    let node = if T::RING_TOPOLOGY == RingTopology::PerNode {
        lemma_lane_samples::<T>(ring, capacity, fleet.capacity as nat);
        assert(lane_samples::<T>(ring, capacity, fleet.capacity as nat)[i] == all[i]);
        choose|node: int|
            0 <= node < fleet.capacity && (#[trigger] visible::<T>(
                ring.lanes[node],
                capacity,
            )).contains(Some(all[i]))
    } else {
        let seen = visible::<T>(fleet.own_lane::<T>(), capacity);
        lemma_held_was_seen(Seq::empty(), seen, false, i);
        lemma_shared_keys_differ(seen);
        0
    };
    let seen = visible::<T>(ring.lanes[node], capacity);
    let at = choose|at: int| 0 <= at < seen.len() && seen[at] == Some(all[i]);
    lemma_seen_is_told::<T>(ring.lanes[node], capacity, at);
    (node, ring.lanes[node].head - 1 - at)
}

proof fn lemma_key_held<T: OrbitMetricKeyedSnapshot>(
    samples: Seq<OrbitMetricSample<T>>,
    key: <T::Key as View>::V,
    from: int,
    k: int,
)
    requires
        0 <= from <= k < samples.len(),
        samples[k].snapshot.key() == key,
    ensures
        key_from(samples, key, from) is Some,
    decreases samples.len() - from,
{
    if samples[from].snapshot.key() != key {
        lemma_key_held(samples, key, from + 1, k);
    }
}

proof fn lemma_shared_keys_differ<T: OrbitMetricKeyedSnapshot>(
    seen: Seq<Option<OrbitMetricSample<T>>>,
)
    ensures
        keys_differ(with_samples(Seq::empty(), seen, false)),
    decreases seen.len(),
{
    let after = with_samples(Seq::empty(), seen, false);
    if seen.len() > 0 {
        let before = with_samples(Seq::empty(), seen.drop_last(), false);
        lemma_shared_keys_differ(seen.drop_last());
        if seen.last() is Some {
            let sample = seen.last()->0;
            assert forall|i: int, j: int|
                0 <= i < after.len() && 0 <= j < after.len() && i != j implies (
            #[trigger] after[i]).snapshot.key() != (#[trigger] after[j]).snapshot.key() by {
                if i < before.len() && j < before.len() {
                    assert(before[i] == after[i] && before[j] == after[j]);
                } else {
                    let k = if i < before.len() {
                        i
                    } else {
                        j
                    };
                    if before[k].snapshot.key() == sample.snapshot.key() {
                        lemma_key_held(before, sample.snapshot.key(), 0, k);
                    }
                    assert(after[k] == before[k]);
                }
            }
        }
    }
}

/// The age of a sample is what has passed since it was taken; one from the future has none.
pub proof fn law_age_is_what_has_passed<T: OrbitMetricSnapshot>(
    sample: OrbitMetricSample<T>,
    now: u64,
)
    ensures
        now >= sample.snapshot.captured() ==> sample.snapshot.captured() + sample.age(now) == now,
        now < sample.snapshot.captured() ==> sample.age(now) == 0,
{
}

} // verus!
