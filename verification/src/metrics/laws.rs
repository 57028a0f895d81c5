//! What holds of every family of snapshots.
use vstd::prelude::*;

use crate::metrics::{
    first_by_node, fresh_of, has_node, key_from, newer, own_samples, visible, with_sample,
    with_samples, OrbitMetricKeyedSnapshot, OrbitMetricSample, OrbitMetricSnapshot,
};
use crate::ring::RingView;

verus! {

/// No node has two samples among those that are collected from a window.
pub proof fn law_one_sample_per_node<T: OrbitMetricSnapshot>(
    seen: Seq<Option<OrbitMetricSample<T>>>,
)
    ensures
        ({
            let picked = first_by_node(seen);
            forall|i: int, j: int|
                0 <= i < picked.len() && 0 <= j < picked.len() && i != j ==> (
                #[trigger] picked[i]).snapshot.node() != (#[trigger] picked[j]).snapshot.node()
        }),
    decreases seen.len(),
{
    if seen.len() > 0 {
        law_one_sample_per_node(seen.drop_last());
        let before = first_by_node(seen.drop_last());
        let picked = first_by_node(seen);
        assert forall|i: int, j: int|
            0 <= i < picked.len() && 0 <= j < picked.len() && i != j implies (
        #[trigger] picked[i]).snapshot.node() != (#[trigger] picked[j]).snapshot.node() by {
            if i < before.len() && j < before.len() {
                assert(before[i] == picked[i]);
                assert(before[j] == picked[j]);
            } else if i < before.len() {
                assert(before[i] == picked[i]);
            } else {
                assert(before[j] == picked[j]);
            }
        }
    }
}

/// The sample that is collected for a node is the newest one of its window, and
/// no node of the window is left out.
pub proof fn law_newest_sample_wins<T: OrbitMetricSnapshot>(
    seen: Seq<Option<OrbitMetricSample<T>>>,
    i: int,
)
    requires
        0 <= i < seen.len(),
        seen[i] is Some,
        forall|j: int|
            0 <= j < i && (#[trigger] seen[j]) is Some ==> (seen[j]->0).snapshot.node() != (
            seen[i]->0).snapshot.node(),
    ensures
        first_by_node(seen).contains(seen[i]->0),
    decreases seen.len(),
{
    let shorter = seen.drop_last();
    let before = first_by_node(shorter);
    let picked = first_by_node(seen);
    assert(before.len() <= picked.len());
    if i < seen.len() - 1 {
        assert(shorter[i] == seen[i]);
        assert forall|j: int| 0 <= j < i && (#[trigger] shorter[j]) is Some implies (
        shorter[j]->0).snapshot.node() != (shorter[i]->0).snapshot.node() by {
            assert(seen[j] is Some);
        }
        law_newest_sample_wins(shorter, i);
        let k = choose|k: int| 0 <= k < before.len() && before[k] == shorter[i]->0;
        assert(picked[k] == before[k]);
    } else {
        let sample = seen[i]->0;
        if has_node(before, sample.snapshot.node()) {
            let k = choose|k: int|
                0 <= k < before.len() && (#[trigger] before[k]).snapshot.node()
                    == sample.snapshot.node();
            lemma_picked_was_seen(shorter, k);
            let j = choose|j: int|
                0 <= j < shorter.len() && (#[trigger] shorter[j]) == Some(before[k]);
            assert(seen[j] == shorter[j]);
        }
        assert(picked[picked.len() - 1] == sample);
    }
}

/// Whatever is collected was in the window.
pub proof fn lemma_picked_was_seen<T: OrbitMetricSnapshot>(
    seen: Seq<Option<OrbitMetricSample<T>>>,
    k: int,
)
    requires
        0 <= k < first_by_node(seen).len(),
    ensures
        exists|j: int|
            0 <= j < seen.len() && (#[trigger] seen[j]) == Some(first_by_node(seen)[k]),
    decreases seen.len(),
{
    let shorter = seen.drop_last();
    let before = first_by_node(shorter);
    if k < before.len() {
        lemma_picked_was_seen(shorter, k);
        let j = choose|j: int| 0 <= j < shorter.len() && (#[trigger] shorter[j]) == Some(before[k]);
        assert(seen[j] == Some(first_by_node(seen)[k]));
    } else {
        assert(seen[seen.len() - 1] == Some(first_by_node(seen)[k]));
    }
}

/// Across node lanes, a sample counts only for the node whose lane carried it,
/// and no node has two.
pub proof fn law_lanes_speak_for_themselves<T: OrbitMetricSnapshot>(
    ring: RingView,
    capacity: usize,
    nodes: nat,
)
    requires
        nodes <= u16::MAX,
    ensures
        ({
            let picked = own_samples::<T>(ring, capacity, nodes);
            &&& forall|i: int| 0 <= i < picked.len() ==> (#[trigger] picked[i]).snapshot.node() < nodes
            &&& forall|i: int, j: int|
                0 <= i < j < picked.len() ==> (#[trigger] picked[i]).snapshot.node() < (
                #[trigger] picked[j]).snapshot.node()
        }),
    decreases nodes,
{
    if nodes > 0 {
        law_lanes_speak_for_themselves::<T>(ring, capacity, (nodes - 1) as nat);
        let before = own_samples::<T>(ring, capacity, (nodes - 1) as nat);
        let picked = own_samples::<T>(ring, capacity, nodes);
        let seen = visible::<T>(ring.lanes[nodes - 1], capacity);
        lemma_first_of_node::<T>(seen, (nodes - 1) as u16, 0);
        assert forall|i: int| 0 <= i < picked.len() implies (#[trigger] picked[i]).snapshot.node()
            < nodes by {
            if i < before.len() {
                assert(before[i] == picked[i]);
            }
        }
        assert forall|i: int, j: int| 0 <= i < j < picked.len() implies (
        #[trigger] picked[i]).snapshot.node() < (#[trigger] picked[j]).snapshot.node() by {
            assert(before[i] == picked[i]);
            if j < before.len() {
                assert(before[j] == picked[j]);
            }
        }
    }
}

proof fn lemma_first_of_node<T: OrbitMetricSnapshot>(
    seen: Seq<Option<OrbitMetricSample<T>>>,
    node: u16,
    from: int,
)
    requires
        0 <= from,
    ensures
        crate::metrics::first_of_node(seen, node, from) matches Some(sample)
            ==> sample.snapshot.node() == node,
    decreases seen.len() - from,
{
    if from < seen.len() {
        lemma_first_of_node(seen, node, from + 1);
    }
}

/// True when no two samples have one key.
pub open spec fn keys_differ<T: OrbitMetricKeyedSnapshot>(
    samples: Seq<OrbitMetricSample<T>>,
) -> bool {
    forall|i: int, j: int|
        0 <= i < samples.len() && 0 <= j < samples.len() && i != j ==> (
        #[trigger] samples[i]).snapshot.key() != (#[trigger] samples[j]).snapshot.key()
}

/// True when a sample is held, or one of its key that is as new.
pub open spec fn outdone<T: OrbitMetricKeyedSnapshot>(
    samples: Seq<OrbitMetricSample<T>>,
    sample: OrbitMetricSample<T>,
) -> bool {
    exists|i: int|
        0 <= i < samples.len() && (#[trigger] samples[i]).snapshot.key() == sample.snapshot.key()
            && !newer(sample, samples[i])
}

/// The first sample of a key is found.
pub proof fn lemma_key_from<T: OrbitMetricKeyedSnapshot>(
    samples: Seq<OrbitMetricSample<T>>,
    key: <T::Key as View>::V,
    from: int,
)
    requires
        0 <= from <= samples.len(),
    ensures
        match key_from(samples, key, from) {
            Some(place) => from <= place < samples.len() && samples[place].snapshot.key() == key,
            None => forall|i: int|
                from <= i < samples.len() ==> (#[trigger] samples[i]).snapshot.key() != key,
        },
    decreases samples.len() - from,
{
    if from < samples.len() && samples[from].snapshot.key() != key {
        lemma_key_from(samples, key, from + 1);
    }
}

proof fn lemma_with_sample<T: OrbitMetricKeyedSnapshot>(
    samples: Seq<OrbitMetricSample<T>>,
    sample: OrbitMetricSample<T>,
    replace: bool,
)
    requires
        keys_differ(samples),
    ensures
        keys_differ(with_sample(samples, sample, replace)),
        replace ==> outdone(with_sample(samples, sample, replace), sample),
        replace ==> forall|other: OrbitMetricSample<T>|
            outdone(samples, other) ==> #[trigger] outdone(
                with_sample(samples, sample, replace),
                other,
            ),
{
    let key = sample.snapshot.key();
    lemma_key_from(samples, key, 0);
    let after = with_sample(samples, sample, replace);
    assert forall|i: int, j: int|
        0 <= i < after.len() && 0 <= j < after.len() && i != j implies (
    #[trigger] after[i]).snapshot.key() != (#[trigger] after[j]).snapshot.key() by {
        match key_from(samples, key, 0) {
            Some(place) => {
                assert(samples[i].snapshot.key() != samples[j].snapshot.key());
            },
            None => {
                if i < samples.len() && j < samples.len() {
                    assert(samples[i].snapshot.key() != samples[j].snapshot.key());
                } else if i < samples.len() {
                    assert(samples[i].snapshot.key() != key);
                } else {
                    assert(samples[j].snapshot.key() != key);
                }
            },
        }
    }
    if replace {
        match key_from(samples, key, 0) {
            Some(place) => {
                assert(after[place].snapshot.key() == key && !newer(sample, after[place]));
            },
            None => {
                assert(after[after.len() - 1] == sample);
            },
        }
        assert forall|other: OrbitMetricSample<T>| outdone(samples, other) implies #[trigger] outdone(
            after,
            other,
        ) by {
            let i = choose|i: int|
                0 <= i < samples.len() && (#[trigger] samples[i]).snapshot.key()
                    == other.snapshot.key() && !newer(other, samples[i]);
            assert(after[i].snapshot.key() == other.snapshot.key() && !newer(other, after[i]));
        }
    }
}

/// Across windows, each key has one sample, and it is the newest one: none of the
/// samples that were seen is newer than the one that is held for its key.
pub proof fn law_newest_key_wins<T: OrbitMetricKeyedSnapshot>(
    samples: Seq<OrbitMetricSample<T>>,
    seen: Seq<Option<OrbitMetricSample<T>>>,
)
    requires
        keys_differ(samples),
    ensures
        keys_differ(with_samples(samples, seen, true)),
        forall|i: int|
            0 <= i < seen.len() && (#[trigger] seen[i]) is Some ==> outdone(
                with_samples(samples, seen, true),
                seen[i]->0,
            ),
        forall|other: OrbitMetricSample<T>|
            outdone(samples, other) ==> #[trigger] outdone(
                with_samples(samples, seen, true),
                other,
            ),
    decreases seen.len(),
{
    if seen.len() > 0 {
        let shorter = seen.drop_last();
        law_newest_key_wins(samples, shorter);
        let before = with_samples(samples, shorter, true);
        let after = with_samples(samples, seen, true);
        match seen.last() {
            Some(sample) => {
                lemma_with_sample(before, sample, true);
            },
            None => {},
        }
        assert forall|i: int| 0 <= i < seen.len() && (#[trigger] seen[i]) is Some implies outdone(
            after,
            seen[i]->0,
        ) by {
            if i < shorter.len() {
                assert(shorter[i] == seen[i]);
                assert(outdone(before, seen[i]->0));
            }
        }
        assert forall|other: OrbitMetricSample<T>| outdone(samples, other) implies #[trigger] outdone(
            after,
            other,
        ) by {
            assert(outdone(before, other));
        }
    }
}

/// A stale sample is never handed out as a fresh one, and a fresh one is never
/// withheld.
pub proof fn law_only_fresh_samples<T: OrbitMetricSnapshot>(
    samples: Seq<OrbitMetricSample<T>>,
    now: u64,
    max_age: u64,
)
    ensures
        forall|i: int|
            0 <= i < fresh_of(samples, now, max_age).len() ==> (
            #[trigger] fresh_of(samples, now, max_age)[i]).age(now) <= max_age,
        forall|i: int|
            0 <= i < samples.len() && (#[trigger] samples[i]).age(now) <= max_age ==> fresh_of(
                samples,
                now,
                max_age,
            ).contains(samples[i]),
    decreases samples.len(),
{
    if samples.len() > 0 {
        let shorter = samples.drop_last();
        law_only_fresh_samples(shorter, now, max_age);
        let before = fresh_of(shorter, now, max_age);
        let fresh = fresh_of(samples, now, max_age);
        assert forall|i: int| 0 <= i < fresh.len() implies (#[trigger] fresh[i]).age(now)
            <= max_age by {
            if i < before.len() {
                assert(fresh[i] == before[i]);
            }
        }
        assert forall|i: int|
            0 <= i < samples.len() && (#[trigger] samples[i]).age(now) <= max_age implies fresh.contains(
            samples[i],
        ) by {
            if i < shorter.len() {
                assert(shorter[i] == samples[i]);
                assert(before.contains(shorter[i]));
                let k = choose|k: int| 0 <= k < before.len() && before[k] == shorter[i];
                assert(fresh[k] == samples[i]);
            } else {
                assert(fresh[fresh.len() - 1] == samples[i]);
            }
        }
    }
}

} // verus!
