//! What holds of locks over several calls.
use vstd::prelude::*;

use crate::fleet::FleetView;
use crate::id::lemma_pack;
use crate::lock::error::Error;
use crate::lock::keys::{AcquireView, EventView, KeyView, LeaseView, LockAcquire};
use crate::lock::layout::LockLayout;
use crate::lock::state::TableView;
use crate::lock::{by_revision, insert_by_revision, is_acquire, is_release};

verus! {

/// A key has at most one tenure that is not over.
pub proof fn law_one_holder(table: TableView, key: KeyView, now_ms: u64, i: int, j: int)
    requires
        table.wf(),
        table.live_at(i, key, now_ms),
        table.live_at(j, key, now_ms),
    ensures
        i == j,
{
    let all = crate::lock::state::places(table.slots);
    assert(all[i] == crate::probe::Place::Held(key));
    assert(all[j] == crate::probe::Place::Held(key));
}

/// While a tenure is not over, every other attempt on its key is told who holds
/// it, whoever asks, and changes nothing that is not over.
pub proof fn law_holder_excludes_others<L: LockLayout>(
    table: TableView,
    after: TableView,
    fleet: FleetView,
    fleet_after: FleetView,
    lease: LeaseView,
    owner: Seq<u8>,
    now_ms: u64,
    expires_at_ms: u64,
    result: Result<LockAcquire, Error>,
)
    requires
        table.live(lease.key, now_ms) == Some(lease),
        crate::lock::state::entry_fault(lease.key, owner) is None,
        is_acquire::<L>(
            table,
            after,
            fleet,
            fleet_after,
            lease.key,
            owner,
            now_ms,
            expires_at_ms,
            result,
        ),
    ensures
        result is Ok,
        result->Ok_0@ == AcquireView::Occupied(lease),
        after.live(lease.key, now_ms) == Some(lease),
        fleet_after == fleet,
{
}

/// Fencing tokens grow: a fresh tenure's token is larger than that of every
/// tenure in the table, and than every token minted before.
pub proof fn law_fencing_tokens_grow<L: LockLayout>(
    table: TableView,
    after: TableView,
    fleet: FleetView,
    fleet_after: FleetView,
    key: KeyView,
    owner: Seq<u8>,
    now_ms: u64,
    expires_at_ms: u64,
    result: Result<LockAcquire, Error>,
    i: int,
)
    requires
        table.wf(),
        table.numbered(),
        is_acquire::<L>(
            table,
            after,
            fleet,
            fleet_after,
            key,
            owner,
            now_ms,
            expires_at_ms,
            result,
        ),
        result is Ok,
        result->Ok_0@ is Acquired,
    ensures
        ({
            let lease = result->Ok_0@->Acquired_0;
            &&& lease.token() == table.next_lock + 1
            &&& lease.token() == after.next_lock
            &&& 0 <= i < table.slots.len() && table.slots[i] is Occupied
                ==> table.slots[i]->Occupied_0.token() < lease.token()
        }),
{
    lemma_pack(L::STATE_KIND, fleet.node, (table.next_lock + 1) as u64);
}

/// A lease whose key has passed to a later tenure releases nothing.
pub proof fn law_stale_lease_releases_nothing<L: LockLayout>(
    table: TableView,
    after: TableView,
    fleet: FleetView,
    fleet_after: FleetView,
    stale: LeaseView,
    current: LeaseView,
    now_ms: u64,
    result: Result<bool, Error>,
)
    requires
        table.live(stale.key, now_ms) == Some(current),
        stale.token() < current.token(),
        is_release::<L>(
            table,
            after,
            fleet,
            fleet_after,
            stale.key,
            table.live(stale.key, now_ms) matches Some(holder) && holder.lock_id == stale.lock_id,
            now_ms,
            result,
        ),
    ensures
        result == Ok::<bool, Error>(false),
        after.live(stale.key, now_ms) == Some(current),
        fleet_after == fleet,
{
}

/// A lock that was released is free for whoever comes next.
pub proof fn law_released_is_free<L: LockLayout>(
    table: TableView,
    after: TableView,
    fleet: FleetView,
    fleet_after: FleetView,
    key: KeyView,
    entitled: bool,
    now_ms: u64,
    result: Result<bool, Error>,
)
    requires
        is_release::<L>(table, after, fleet, fleet_after, key, entitled, now_ms, result),
        result == Ok::<bool, Error>(true),
    ensures
        entitled,
        after.live(key, now_ms) is None,
{
}

/// A tenure that was not renewed is over at its end: the key has no holder then.
pub proof fn law_tenure_ends(table: TableView, key: KeyView, now_ms: u64, later_ms: u64)
    requires
        table.wf(),
        now_ms <= later_ms,
        table.live(key, now_ms) matches Some(lease) && lease.expires_at_ms <= later_ms,
    ensures
        table.live(key, later_ms) is None,
{
    let i = choose|i: int| #[trigger] table.live_at(i, key, now_ms);
    if exists|j: int| #[trigger] table.live_at(j, key, later_ms) {
        let j = choose|j: int| #[trigger] table.live_at(j, key, later_ms);
        assert(table.live_at(j, key, now_ms));
        law_one_holder(table, key, now_ms, i, j);
    }
}

/// True when no event comes before an earlier one.
pub open spec fn in_order(events: Seq<EventView>) -> bool {
    forall|i: int, j: int|
        0 <= i < j < events.len() ==> (#[trigger] events[i]).transition.state_revision() <= (
        #[trigger] events[j]).transition.state_revision()
}

proof fn lemma_insert_in_order(events: Seq<EventView>, event: EventView)
    requires
        in_order(events),
    ensures
        in_order(insert_by_revision(events, event)),
        insert_by_revision(events, event).len() == events.len() + 1,
        insert_by_revision(events, event).to_multiset() == events.to_multiset().insert(event),
        forall|i: int|
            0 <= i <= events.len() ==> (#[trigger] insert_by_revision(events, event)[i]) == event
                || events.contains(insert_by_revision(events, event)[i]),
    decreases events.len(),
{
    broadcast use vstd::seq_lib::group_to_multiset_ensures;

    let after = insert_by_revision(events, event);
    if events.len() == 0 || event.transition.state_revision()
        >= events.last().transition.state_revision() {
        assert forall|i: int, j: int| 0 <= i < j < after.len() implies (
        #[trigger] after[i]).transition.state_revision() <= (
        #[trigger] after[j]).transition.state_revision() by {
            assert(after[i] == events[i]);
            if j < events.len() {
                assert(after[j] == events[j]);
            } else if i < events.len() - 1 {
                assert(events[i].transition.state_revision() <= events[events.len()
                    - 1].transition.state_revision());
            }
        }
        assert forall|i: int| 0 <= i <= events.len() implies (#[trigger] after[i]) == event
            || events.contains(after[i]) by {
            if i < events.len() {
                assert(after[i] == events[i]);
            }
        }
    } else {
        let shorter = events.drop_last();
        let last = events.last();
        assert(events == shorter.push(last));
        assert(in_order(shorter)) by {
            assert forall|i: int, j: int| 0 <= i < j < shorter.len() implies (
            #[trigger] shorter[i]).transition.state_revision() <= (
            #[trigger] shorter[j]).transition.state_revision() by {
                assert(shorter[i] == events[i]);
                assert(shorter[j] == events[j]);
            }
        }
        lemma_insert_in_order(shorter, event);
        let inner = insert_by_revision(shorter, event);
        assert forall|i: int, j: int| 0 <= i < j < after.len() implies (
        #[trigger] after[i]).transition.state_revision() <= (
        #[trigger] after[j]).transition.state_revision() by {
            assert(after[i] == inner[i]);
            if j < inner.len() {
                assert(after[j] == inner[j]);
            } else if inner[i] != event {
                let at = choose|at: int| 0 <= at < shorter.len() && shorter[at] == inner[i];
                assert(events[at] == inner[i]);
                assert(events[events.len() - 1] == last);
            }
        }
        assert(events.to_multiset() =~= shorter.to_multiset().insert(last));
        assert(after.to_multiset() =~= inner.to_multiset().insert(last));
        assert(after.to_multiset() =~= events.to_multiset().insert(event));
        assert forall|i: int| 0 <= i <= events.len() implies (#[trigger] after[i]) == event
            || events.contains(after[i]) by {
            if i < inner.len() {
                assert(after[i] == inner[i]);
                if inner[i] != event {
                    let at = choose|at: int| 0 <= at < shorter.len() && shorter[at] == inner[i];
                    assert(events[at] == inner[i]);
                }
            } else {
                assert(events[events.len() - 1] == last);
            }
        }
    }
}

/// A poll hands out the same events in the order of their revisions.
pub proof fn law_events_are_in_order(events: Seq<EventView>)
    ensures
        in_order(by_revision(events)),
        by_revision(events).len() == events.len(),
        by_revision(events).to_multiset() == events.to_multiset(),
    decreases events.len(),
{
    broadcast use vstd::seq_lib::group_to_multiset_ensures;

    if events.len() > 0 {
        let shorter = events.drop_last();
        law_events_are_in_order(shorter);
        lemma_insert_in_order(by_revision(shorter), events.last());
        assert(events == shorter.push(events.last()));
        assert(events.to_multiset() =~= shorter.to_multiset().insert(events.last()));
    } else {
        assert(events =~= Seq::<EventView>::empty());
    }
}

} // verus!
