//! A store converges: what it holds does not depend on the order in which
//! mutations arrive.
use vstd::prelude::*;

use crate::cache::local::{
    lemma_fresh, lemma_put_wf, lemma_raise_wf, CacheReadView, LocalView, OutcomeView,
};
use crate::cache::protocol::{
    law_revision_order_is_transitive, law_revisions_are_ordered, MutationView,
};
use crate::cache::resident::{
    distinct, has_key, lemma_pushed, place_of, slot_of, EntryView, Item, SlotView,
};

verus! {

/// A mutation, and the value that was found for it, where it is a put.
pub type Step = (MutationView, Option<Seq<u8>>);

/// True when a mutation puts or deletes a key.
pub open spec fn touches(step: Step, key: Seq<u8>) -> bool {
    match step.0 {
        MutationView::Put { key: named, .. } => named == key,
        MutationView::Delete { key: named, .. } => named == key,
        MutationView::Reset { .. } => false,
    }
}

/// What a put or a delete leaves in its key's slot.
pub open spec fn slot_left(step: Step) -> SlotView {
    match step.0 {
        MutationView::Put { revision, expires_at_ms, .. } => match step.1 {
            Some(value) => SlotView::Present(EntryView { value, revision, expires_at_ms }),
            None => SlotView::Missing { revision },
        },
        MutationView::Delete { revision, .. } => SlotView::Missing { revision },
        MutationView::Reset { revision, .. } => SlotView::Missing { revision },
    }
}

/// A store with room for this many keys, to which nothing was applied.
pub open spec fn unused(limit: nat) -> LocalView {
    LocalView { items: Seq::empty(), limit, floor: None, coherent: true }
}

/// The store after mutations were applied one after the other.
pub open spec fn applied(limit: nat, steps: Seq<Step>) -> LocalView
    decreases steps.len(),
{
    if steps.len() == 0 {
        unused(limit)
    } else {
        applied(limit, steps.drop_last()).apply(steps.last().0, steps.last().1)
    }
}

/// The keys that mutations put or delete.
pub open spec fn keys_of(steps: Seq<Step>) -> Set<Seq<u8>>
    decreases steps.len(),
{
    if steps.len() == 0 {
        Set::empty()
    } else {
        let before = keys_of(steps.drop_last());
        match steps.last().0 {
            MutationView::Put { key, .. } => before.insert(key),
            MutationView::Delete { key, .. } => before.insert(key),
            MutationView::Reset { .. } => before,
        }
    }
}

/// True when no revision belongs to two different mutations. The same one may
/// come more than once.
pub open spec fn unambiguous(steps: Seq<Step>) -> bool {
    forall|i: int, j: int|
        0 <= i < steps.len() && 0 <= j < steps.len() && (#[trigger] steps[i]).0.revision() == (
        #[trigger] steps[j]).0.revision() ==> steps[i] == steps[j]
}

/// True when a mutation is the last one of a key: no put or delete of the key has
/// a later revision, and no reset has a sequence that reaches it.
pub open spec fn prevails(steps: Seq<Step>, key: Seq<u8>, i: int) -> bool {
    &&& 0 <= i < steps.len()
    &&& touches(steps[i], key)
    &&& forall|j: int|
        0 <= j < steps.len() && touches(#[trigger] steps[j], key) ==> !steps[i].0.revision().before(
            steps[j].0.revision(),
        )
    &&& forall|j: int|
        0 <= j < steps.len() && (#[trigger] steps[j]).0 is Reset ==> steps[j].0.revision().sequence
            < steps[i].0.revision().sequence
}

/// What the last mutation of a key makes of a read.
pub open spec fn answer(step: Step, now_ms: u64) -> CacheReadView {
    match slot_left(step) {
        SlotView::Present(entry) => if entry.expired(now_ms) {
            CacheReadView::Miss
        } else {
            CacheReadView::Hit(entry)
        },
        SlotView::Missing { .. } => CacheReadView::Miss,
    }
}

/// True when a store holds what these mutations leave, whatever their order.
spec fn reflects(local: LocalView, limit: nat, steps: Seq<Step>) -> bool {
    &&& local.wf()
    &&& local.coherent
    &&& local.limit == limit
    &&& match local.floor {
        None => forall|i: int| 0 <= i < steps.len() ==> !((#[trigger] steps[i]).0 is Reset),
        Some(floor) => {
            &&& exists|i: int|
                0 <= i < steps.len() && (#[trigger] steps[i]).0 is Reset
                    && steps[i].0.revision().sequence == floor
            &&& forall|i: int|
                0 <= i < steps.len() && (#[trigger] steps[i]).0 is Reset
                    ==> steps[i].0.revision().sequence <= floor
        },
    }
    &&& forall|key: Seq<u8>, i: int|
        0 <= i < steps.len() && #[trigger] touches(steps[i], key) && local.accepts(
            steps[i].0.revision(),
        ) ==> has_key(local.items, key) && !slot_of(local.items, key).revision().before(
            steps[i].0.revision(),
        )
    &&& forall|key: Seq<u8>| #[trigger]
        has_key(local.items, key) ==> exists|i: int|
            0 <= i < steps.len() && #[trigger] touches(steps[i], key) && slot_of(local.items, key)
                == slot_left(steps[i])
}

proof fn lemma_keys_of(steps: Seq<Step>)
    ensures
        keys_of(steps).finite(),
        forall|key: Seq<u8>, i: int|
            0 <= i < steps.len() && #[trigger] touches(steps[i], key) ==> keys_of(steps).contains(
                key,
            ),
    decreases steps.len(),
{
    if steps.len() > 0 {
        let shorter = steps.drop_last();
        lemma_keys_of(shorter);
        assert forall|key: Seq<u8>, i: int|
            0 <= i < steps.len() && #[trigger] touches(steps[i], key) implies keys_of(
            steps,
        ).contains(key) by {
            if i < shorter.len() {
                assert(touches(shorter[i], key));
            }
        }
    }
}

/// Items with different keys are no more than the keys they have.
proof fn lemma_no_more_than_keys(items: Seq<Item>, keys: Set<Seq<u8>>)
    requires
        distinct(items),
        keys.finite(),
        forall|i: int| 0 <= i < items.len() ==> keys.contains((#[trigger] items[i]).0),
    ensures
        items.len() <= keys.len(),
    decreases items.len(),
{
    if items.len() > 0 {
        let shorter = items.drop_last();
        let fewer = keys.remove(items.last().0);
        assert forall|i: int, j: int|
            0 <= i < shorter.len() && 0 <= j < shorter.len() && i != j implies (
        #[trigger] shorter[i]).0 != (#[trigger] shorter[j]).0 by {
            assert(items[i].0 != items[j].0);
        }
        assert forall|i: int| 0 <= i < shorter.len() implies fewer.contains(
            (#[trigger] shorter[i]).0,
        ) by {
            assert(items[i].0 != items[items.len() - 1].0);
            assert(keys.contains(items[i].0));
        }
        lemma_no_more_than_keys(shorter, fewer);
        assert(keys.contains(items[items.len() - 1].0));
    }
}

/// A store in which the keys of all mutations fit has room for one that is not
/// resident.
proof fn lemma_room(local: LocalView, all: Set<Seq<u8>>, key: Seq<u8>)
    requires
        distinct(local.items),
        all.finite(),
        all.len() <= local.limit,
        all.contains(key),
        !has_key(local.items, key),
        forall|other: Seq<u8>| #[trigger] has_key(local.items, other) ==> all.contains(other),
    ensures
        local.items.len() < local.limit,
{
    let fewer = all.remove(key);
    assert forall|i: int| 0 <= i < local.items.len() implies fewer.contains(
        (#[trigger] local.items[i]).0,
    ) by {
        assert(has_key(local.items, local.items[i].0));
    }
    lemma_no_more_than_keys(local.items, fewer);
}

proof fn lemma_put_reflects(
    local: LocalView,
    limit: nat,
    shorter: Seq<Step>,
    last: Step,
    key: Seq<u8>,
    all: Set<Seq<u8>>,
)
    requires
        reflects(local, limit, shorter),
        touches(last, key),
        local.accepts(last.0.revision()),
        all.finite(),
        all.len() <= limit,
        forall|other: Seq<u8>, i: int|
            0 <= i < shorter.len() && #[trigger] touches(shorter[i], other) ==> all.contains(other),
        all.contains(key),
    ensures
        reflects(local.put(key, slot_left(last)), limit, shorter.push(last)),
{
    let steps = shorter.push(last);
    let slot = slot_left(last);
    let after = local.put(key, slot);
    assert(slot.revision() == last.0.revision());
    lemma_put_wf(local, key, slot);
    assert forall|i: int| 0 <= i < shorter.len() implies #[trigger] steps[i] == shorter[i] by {}
    assert forall|other: Seq<u8>| #[trigger] has_key(local.items, other) implies all.contains(
        other,
    ) by {
        let i = choose|i: int|
            0 <= i < shorter.len() && #[trigger] touches(shorter[i], other) && slot_of(
                local.items,
                other,
            ) == slot_left(shorter[i]);
        assert(touches(shorter[i], other));
    }
    if !has_key(local.items, key) {
        lemma_room(local, all, key);
    }
    let outdated = local.outdates(key, slot.revision());
    if !outdated {
        lemma_pushed(local.items, local.limit, key, slot, key);
    }
    assert(after.floor == local.floor);
    lemma_floor_kept(local, steps, shorter, last);
    assert forall|other: Seq<u8>, i: int|
        0 <= i < steps.len() && #[trigger] touches(steps[i], other) && after.accepts(
            steps[i].0.revision(),
        ) implies has_key(after.items, other) && !slot_of(after.items, other).revision().before(
        steps[i].0.revision(),
    ) by {
        if !outdated {
            lemma_pushed(local.items, local.limit, key, slot, other);
        }
        if i < shorter.len() {
            assert(touches(shorter[i], other));
            if other == key && !outdated {
                let old_revision = slot_of(local.items, key).revision();
                if slot.revision().before(steps[i].0.revision()) {
                    law_revision_order_is_transitive(
                        old_revision,
                        slot.revision(),
                        steps[i].0.revision(),
                    );
                }
            }
        } else {
            law_revisions_are_ordered(slot.revision(), slot.revision());
        }
    }
    assert forall|other: Seq<u8>| #[trigger] has_key(after.items, other) implies exists|i: int|
        0 <= i < steps.len() && #[trigger] touches(steps[i], other) && slot_of(after.items, other)
            == slot_left(steps[i]) by {
        if !outdated {
            lemma_pushed(local.items, local.limit, key, slot, other);
        }
        if other == key && !outdated {
            assert(touches(steps[shorter.len() as int], other));
        } else {
            assert(has_key(local.items, other));
            let i = choose|i: int|
                0 <= i < shorter.len() && #[trigger] touches(shorter[i], other) && slot_of(
                    local.items,
                    other,
                ) == slot_left(shorter[i]);
            assert(touches(steps[i], other));
        }
    }
}

/// One more mutation that is no reset leaves what the floor says.
proof fn lemma_floor_kept(local: LocalView, steps: Seq<Step>, shorter: Seq<Step>, last: Step)
    requires
        steps == shorter.push(last),
        !(last.0 is Reset) || !local.accepts(last.0.revision()),
        match local.floor {
            None => forall|i: int| 0 <= i < shorter.len() ==> !((#[trigger] shorter[i]).0 is Reset),
            Some(floor) => {
                &&& exists|i: int|
                    0 <= i < shorter.len() && (#[trigger] shorter[i]).0 is Reset
                        && shorter[i].0.revision().sequence == floor
                &&& forall|i: int|
                    0 <= i < shorter.len() && (#[trigger] shorter[i]).0 is Reset
                        ==> shorter[i].0.revision().sequence <= floor
            },
        },
    ensures
        match local.floor {
            None => forall|i: int| 0 <= i < steps.len() ==> !((#[trigger] steps[i]).0 is Reset),
            Some(floor) => {
                &&& exists|i: int|
                    0 <= i < steps.len() && (#[trigger] steps[i]).0 is Reset
                        && steps[i].0.revision().sequence == floor
                &&& forall|i: int|
                    0 <= i < steps.len() && (#[trigger] steps[i]).0 is Reset
                        ==> steps[i].0.revision().sequence <= floor
            },
        },
{
    assert forall|i: int| 0 <= i < shorter.len() implies #[trigger] steps[i] == shorter[i] by {}
    if let Some(floor) = local.floor {
        let i = choose|i: int|
            0 <= i < shorter.len() && (#[trigger] shorter[i]).0 is Reset
                && shorter[i].0.revision().sequence == floor;
        assert(steps[i].0 is Reset);
    }
}

proof fn lemma_reset_reflects(local: LocalView, limit: nat, shorter: Seq<Step>, last: Step)
    requires
        reflects(local, limit, shorter),
        last.0 is Reset,
        local.accepts(last.0.revision()),
    ensures
        reflects(local.raise(last.0.revision().sequence), limit, shorter.push(last)),
{
    let steps = shorter.push(last);
    let sequence = last.0.revision().sequence;
    let after = local.raise(sequence);
    lemma_raise_wf(local, sequence);
    assert(after.floor == Some(sequence));
    assert(steps[shorter.len() as int].0 is Reset);
    assert forall|i: int| 0 <= i < steps.len() && (#[trigger] steps[i]).0 is Reset implies
        steps[i].0.revision().sequence <= sequence by {
        if i < shorter.len() {
            assert(shorter[i].0 is Reset);
        }
    }
    assert forall|key: Seq<u8>, i: int|
        0 <= i < steps.len() && #[trigger] touches(steps[i], key) && after.accepts(
            steps[i].0.revision(),
        ) implies has_key(after.items, key) && !slot_of(after.items, key).revision().before(
        steps[i].0.revision(),
    ) by {
        assert(touches(shorter[i], key));
        assert(local.accepts(shorter[i].0.revision()));
        lemma_fresh(local.items, sequence, key);
    }
    assert forall|key: Seq<u8>| #[trigger] has_key(after.items, key) implies exists|i: int|
        0 <= i < steps.len() && #[trigger] touches(steps[i], key) && slot_of(after.items, key)
            == slot_left(steps[i]) by {
        lemma_fresh(local.items, sequence, key);
        let i = choose|i: int|
            0 <= i < shorter.len() && #[trigger] touches(shorter[i], key) && slot_of(
                local.items,
                key,
            ) == slot_left(shorter[i]);
        assert(touches(steps[i], key));
    }
}

proof fn lemma_applied(limit: nat, steps: Seq<Step>, all: Set<Seq<u8>>)
    requires
        limit > 0,
        all.finite(),
        all.len() <= limit,
        forall|key: Seq<u8>, i: int|
            0 <= i < steps.len() && #[trigger] touches(steps[i], key) ==> all.contains(key),
    ensures
        reflects(applied(limit, steps), limit, steps),
    decreases steps.len(),
{
    if steps.len() > 0 {
        let shorter = steps.drop_last();
        let last = steps.last();
        assert(steps =~= shorter.push(last));
        assert forall|key: Seq<u8>, i: int|
            0 <= i < shorter.len() && #[trigger] touches(shorter[i], key) implies all.contains(
            key,
        ) by {
            assert(touches(steps[i], key));
        }
        lemma_applied(limit, shorter, all);
        let local = applied(limit, shorter);
        if local.accepts(last.0.revision()) {
            match last.0 {
                MutationView::Put { key, .. } => {
                    assert(touches(steps[steps.len() - 1], key));
                    lemma_put_reflects(local, limit, shorter, last, key, all);
                },
                MutationView::Delete { key, .. } => {
                    assert(touches(steps[steps.len() - 1], key));
                    lemma_put_reflects(local, limit, shorter, last, key, all);
                },
                MutationView::Reset { .. } => {
                    lemma_reset_reflects(local, limit, shorter, last);
                },
            }
        } else {
            lemma_floor_kept(local, steps, shorter, last);
            assert forall|key: Seq<u8>, i: int|
                0 <= i < steps.len() && #[trigger] touches(steps[i], key) && local.accepts(
                    steps[i].0.revision(),
                ) implies has_key(local.items, key) && !slot_of(
                local.items,
                key,
            ).revision().before(steps[i].0.revision()) by {
                assert(touches(shorter[i], key));
            }
            assert forall|key: Seq<u8>| #[trigger] has_key(local.items, key) implies exists|i: int|
                0 <= i < steps.len() && #[trigger] touches(steps[i], key) && slot_of(
                    local.items,
                    key,
                ) == slot_left(steps[i]) by {
                let i = choose|i: int|
                    0 <= i < shorter.len() && #[trigger] touches(shorter[i], key) && slot_of(
                        local.items,
                        key,
                    ) == slot_left(shorter[i]);
                assert(touches(steps[i], key));
            }
        }
    }
}

/// The last write wins: after any number of mutations, whose keys fit the store,
/// a read of a key gives what its last mutation left, and misses where it has
/// none. The last mutation is the put or delete of the key with the greatest
/// revision, unless a reset reaches it.
pub proof fn law_last_write_wins(limit: nat, steps: Seq<Step>, key: Seq<u8>, now_ms: u64)
    requires
        limit > 0,
        keys_of(steps).len() <= limit,
        unambiguous(steps),
    ensures
        forall|i: int| #[trigger]
            prevails(steps, key, i) ==> applied(limit, steps).read(key, now_ms) == answer(
                steps[i],
                now_ms,
            ),
        (forall|i: int| !#[trigger] prevails(steps, key, i)) ==> applied(limit, steps).read(
            key,
            now_ms,
        ) == CacheReadView::Miss,
{
    lemma_keys_of(steps);
    lemma_applied(limit, steps, keys_of(steps));
    let local = applied(limit, steps);
    assert forall|i: int| #[trigger] prevails(steps, key, i) implies local.read(key, now_ms)
        == answer(steps[i], now_ms) by {
        assert(touches(steps[i], key));
        assert(local.accepts(steps[i].0.revision()));
        let j = choose|j: int|
            0 <= j < steps.len() && #[trigger] touches(steps[j], key) && slot_of(local.items, key)
                == slot_left(steps[j]);
        assert(touches(steps[j], key));
        law_revisions_are_ordered(steps[i].0.revision(), steps[j].0.revision());
    }
    if has_key(local.items, key) {
        let j = choose|j: int|
            0 <= j < steps.len() && #[trigger] touches(steps[j], key) && slot_of(local.items, key)
                == slot_left(steps[j]);
        assert(local.items[place_of(local.items, key)].1 == slot_left(steps[j]));
        assert(slot_left(steps[j]).revision() == steps[j].0.revision());
        assert forall|k: int| 0 <= k < steps.len() && touches(#[trigger] steps[k], key) implies
            !steps[j].0.revision().before(steps[k].0.revision()) by {
            if local.accepts(steps[k].0.revision()) {
                assert(touches(steps[k], key));
            }
        }
        assert(prevails(steps, key, j));
    }
}

/// The order does not matter: the same mutations in another order, or some of them
/// more than once, give the same answer to every read.
pub proof fn law_order_never_matters(
    limit: nat,
    one: Seq<Step>,
    other: Seq<Step>,
    key: Seq<u8>,
    now_ms: u64,
)
    requires
        limit > 0,
        keys_of(one).len() <= limit,
        keys_of(other).len() <= limit,
        unambiguous(one),
        unambiguous(other),
        forall|i: int| 0 <= i < one.len() ==> other.contains(#[trigger] one[i]),
        forall|i: int| 0 <= i < other.len() ==> one.contains(#[trigger] other[i]),
    ensures
        applied(limit, one).read(key, now_ms) == applied(limit, other).read(key, now_ms),
{
    law_last_write_wins(limit, one, key, now_ms);
    law_last_write_wins(limit, other, key, now_ms);
    assert forall|i: int| #[trigger] prevails(one, key, i) implies exists|j: int| #[trigger]
        prevails(other, key, j) && other[j] == one[i] by {
        lemma_prevails_there(one, other, key, i);
    }
    assert forall|i: int| #[trigger] prevails(other, key, i) implies exists|j: int| #[trigger]
        prevails(one, key, j) && one[j] == other[i] by {
        lemma_prevails_there(other, one, key, i);
    }
}

proof fn lemma_prevails_there(one: Seq<Step>, other: Seq<Step>, key: Seq<u8>, i: int)
    requires
        prevails(one, key, i),
        forall|i: int| 0 <= i < one.len() ==> other.contains(#[trigger] one[i]),
        forall|i: int| 0 <= i < other.len() ==> one.contains(#[trigger] other[i]),
    ensures
        exists|j: int| #[trigger] prevails(other, key, j) && other[j] == one[i],
{
    assert(other.contains(one[i]));
    let j = choose|j: int| 0 <= j < other.len() && other[j] == one[i];
    assert forall|k: int| 0 <= k < other.len() && touches(#[trigger] other[k], key) implies
        !other[j].0.revision().before(other[k].0.revision()) by {
        assert(one.contains(other[k]));
        let l = choose|l: int| 0 <= l < one.len() && one[l] == other[k];
        assert(touches(one[l], key));
    }
    assert forall|k: int| 0 <= k < other.len() && (#[trigger] other[k]).0 is Reset implies
        other[k].0.revision().sequence < other[j].0.revision().sequence by {
        assert(one.contains(other[k]));
        let l = choose|l: int| 0 <= l < one.len() && one[l] == other[k];
        assert(one[l].0 is Reset);
    }
    assert(prevails(other, key, j));
}

/// A mutation that comes again is ignored, and changes nothing.
pub proof fn law_repeated_mutation_changes_nothing(limit: nat, steps: Seq<Step>, i: int)
    requires
        limit > 0,
        keys_of(steps).len() <= limit,
        0 <= i < steps.len(),
    ensures
        applied(limit, steps).apply(steps[i].0, steps[i].1) == applied(limit, steps),
        applied(limit, steps).outcome(steps[i].0, steps[i].1) == OutcomeView::Ignored,
{
    lemma_keys_of(steps);
    lemma_applied(limit, steps, keys_of(steps));
    let local = applied(limit, steps);
    if local.accepts(steps[i].0.revision()) {
        match steps[i].0 {
            MutationView::Put { key, .. } => {
                assert(touches(steps[i], key));
            },
            MutationView::Delete { key, .. } => {
                assert(touches(steps[i], key));
            },
            MutationView::Reset { .. } => {},
        }
    }
}

} // verus!
