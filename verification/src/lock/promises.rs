//! What a caller of a lock may rely on: who holds a key, from when and until when.
use vstd::prelude::*;

use crate::fleet::cursor::{lane_heads, lanes_frames, lanes_overwritten, lanes_unavailable};
use crate::fleet::laws::{behind, law_publish_then_poll};
use crate::fleet::{lemma_ring_fits, FleetView};
use crate::id::{kind_of, lemma_pack, node_of};
use crate::lock::error::Error;
use crate::lock::keys::{
    lease_view, AcquireView, EventView, KeyView, LeaseView, LockAcquire, LockLease, TransitionView,
};
use crate::lock::laws::{in_order, law_events_are_in_order, law_one_holder};
use crate::lock::layout::{layout_fault, lemma_event_record, LockEventRecord, LockLayout};
use crate::lock::protocol::{
    decoded, event_fault, event_record, frame_kind_of, law_transition_round_trip,
};
use crate::lock::state::{
    entry_fault, key_fault, lemma_live_at, places, SlotView, TableView, LOCK_COUNTER_MAX,
};
use crate::lock::{
    announced, by_revision, deadline_of, decode_all, insert_by_revision, is_acquire, is_release,
    is_renewal, ready,
};
use crate::ring::{FrameView, RingView};
use crate::selection::{ascending, lemma_meant, lemma_no_more_places, meant, meant_at};

verus! {

/// When a tenure that begins now ends: after as many whole milliseconds as it was asked
/// for, and after one at least. No time at all is refused, and so is an end that no
/// clock reaches.
pub proof fn law_deadline_is_the_time_asked_for(now_ms: u64, ttl_nanos: u128)
    ensures
        match deadline_of(now_ms, ttl_nanos) {
            Ok(end) => {
                &&& ttl_nanos > 0
                &&& now_ms < end
                &&& ttl_nanos >= 1_000_000 ==> (end - now_ms) * 1_000_000 <= ttl_nanos < (end
                    - now_ms + 1) * 1_000_000
                &&& ttl_nanos < 1_000_000 ==> end == now_ms + 1
            },
            Err(error) => {
                ||| error == Error::TtlZero && ttl_nanos == 0
                ||| error == Error::TtlOverflow && ttl_nanos > 0 && ((u64::MAX - now_ms + 1)
                    * 1_000_000 <= ttl_nanos || now_ms == u64::MAX)
            },
        },
{
    let whole = ttl_nanos as int / 1_000_000;
    vstd::arithmetic::div_mod::lemma_fundamental_div_mod(ttl_nanos as int, 1_000_000);
    vstd::arithmetic::div_mod::lemma_mod_bound(ttl_nanos as int, 1_000_000);
    assert(ttl_nanos == 1_000_000 * whole + ttl_nanos as int % 1_000_000);
}

/// A tenure is over from its end on, and not before.
pub proof fn law_tenure_is_over_from_its_end_on(lease: LeaseView, at_ms: u64)
    ensures
        at_ms < lease.expires_at_ms ==> !lease.expired(at_ms),
        at_ms >= lease.expires_at_ms ==> lease.expired(at_ms),
{
}

/// The holder of a key stays its holder until the end of the tenure, and there is none
/// from then on, while nothing else is done.
pub proof fn law_holder_stays_until_the_end(
    table: TableView,
    key: KeyView,
    lease: LeaseView,
    now_ms: u64,
    at_ms: u64,
)
    requires
        table.wf(),
        table.live(key, now_ms) == Some(lease),
        now_ms <= at_ms,
    ensures
        lease.key == key,
        now_ms < lease.expires_at_ms,
        at_ms < lease.expires_at_ms ==> table.live(key, at_ms) == Some(lease),
        at_ms >= lease.expires_at_ms ==> table.live(key, at_ms) is None,
{
    let i = choose|i: int| #[trigger] table.live_at(i, key, now_ms);
    if at_ms < lease.expires_at_ms {
        assert(table.live_at(i, key, at_ms));
        lemma_live_at(table, i, key, at_ms);
    } else if exists|j: int| #[trigger] table.live_at(j, key, at_ms) {
        let j = choose|j: int| #[trigger] table.live_at(j, key, at_ms);
        assert(table.live_at(j, key, now_ms));
        law_one_holder(table, key, now_ms, i, j);
    }
}

/// A key that has no holder has none later, while nothing else is done.
pub proof fn law_free_key_stays_free(table: TableView, key: KeyView, now_ms: u64, at_ms: u64)
    requires
        table.live(key, now_ms) is None,
        now_ms <= at_ms,
    ensures
        table.live(key, at_ms) is None,
{
    if exists|j: int| #[trigger] table.live_at(j, key, at_ms) {
        let j = choose|j: int| #[trigger] table.live_at(j, key, at_ms);
        assert(table.live_at(j, key, now_ms));
    }
}

/// Who acquires a lock holds it, as the owner that was named and from now on, until the
/// end of the time that was asked for and no longer.
pub proof fn law_acquired_lock_is_held_for_its_time<L: LockLayout>(
    table: TableView,
    after: TableView,
    fleet: FleetView,
    fleet_after: FleetView,
    key: KeyView,
    owner: Seq<u8>,
    now_ms: u64,
    end_ms: u64,
    result: Result<LockAcquire, Error>,
    at_ms: u64,
)
    requires
        after.wf(),
        now_ms < end_ms,
        is_acquire::<L>(table, after, fleet, fleet_after, key, owner, now_ms, end_ms, result),
        result matches Ok(answer) && answer@ is Acquired,
        now_ms <= at_ms,
    ensures
        ({
            let lease = result->Ok_0@->Acquired_0;
            &&& lease.key == key
            &&& lease.owner == owner
            &&& lease.acquired_at_ms == now_ms
            &&& lease.expires_at_ms == end_ms
            &&& lease.state_revision == table.next_revision + 1
            &&& at_ms < end_ms ==> after.live(key, at_ms) == Some(lease)
            &&& at_ms >= end_ms ==> after.live(key, at_ms) is None
        }),
        table.live(key, now_ms) is None,
{
    law_holder_stays_until_the_end(after, key, result->Ok_0@->Acquired_0, now_ms, at_ms);
}

/// When an attempt on a lock succeeds: exactly where the entry is one that can be kept
/// and announced, nobody holds the key, a place is free, and there are numbers left.
/// Who finds the key held is told the tenure of the holder.
pub proof fn law_attempt_succeeds_where_the_key_is_free<L: LockLayout>(
    table: TableView,
    after: TableView,
    fleet: FleetView,
    fleet_after: FleetView,
    key: KeyView,
    owner: Seq<u8>,
    now_ms: u64,
    end_ms: u64,
    result: Result<LockAcquire, Error>,
)
    requires
        is_acquire::<L>(table, after, fleet, fleet_after, key, owner, now_ms, end_ms, result),
    ensures
        (result matches Ok(answer) && answer@ is Acquired) <==> (entry_fault(key, owner) is None
            && event_fault::<L>(key, owner) is None && table.live(key, now_ms) is None
            && !table.full(now_ms) && table.next_lock < LOCK_COUNTER_MAX && table.next_revision
            < u64::MAX),
        entry_fault(key, owner) is None && table.live(key, now_ms) is Some ==> (result matches Ok(
            answer,
        ) && answer@ == AcquireView::Occupied(table.live(key, now_ms)->0)),
{
}

/// What a renewal does to the end of a tenure: it is the later one of the end that it had
/// and the end that was asked for. All else of the tenure stays but its revision. The
/// key is held by the renewed tenure until the new end and no longer.
pub proof fn law_renewed_lock_is_held_until_the_later_end<L: LockLayout>(
    table: TableView,
    after: TableView,
    fleet: FleetView,
    fleet_after: FleetView,
    key: KeyView,
    entitled: bool,
    now_ms: u64,
    end_ms: u64,
    result: Result<Option<LockLease>, Error>,
    at_ms: u64,
)
    requires
        table.wf(),
        after.wf(),
        entitled ==> table.live(key, now_ms) is Some,
        is_renewal::<L>(
            table,
            after,
            fleet,
            fleet_after,
            key,
            entitled,
            now_ms,
            end_ms,
            result,
        ),
        result matches Ok(Some(_)),
        now_ms <= at_ms,
    ensures
        ({
            let old_lease = table.live(key, now_ms)->0;
            let lease = (result->Ok_0)->0@;
            &&& table.live(key, now_ms) is Some
            &&& lease.expires_at_ms >= end_ms
            &&& lease.expires_at_ms >= old_lease.expires_at_ms
            &&& lease.expires_at_ms == end_ms || lease.expires_at_ms == old_lease.expires_at_ms
            &&& lease.lock_id == old_lease.lock_id
            &&& lease.key == key
            &&& lease.owner == old_lease.owner
            &&& lease.acquired_at_ms == old_lease.acquired_at_ms
            &&& lease.state_revision == table.next_revision + 1
            &&& at_ms < end_ms ==> after.live(key, at_ms) == Some(lease)
            &&& at_ms < old_lease.expires_at_ms ==> after.live(key, at_ms) == Some(lease)
            &&& at_ms >= end_ms && at_ms >= old_lease.expires_at_ms ==> after.live(key, at_ms)
                is None
        }),
        entitled,
{
    let lease = (result->Ok_0)->0@;
    assert(lease_view(result->Ok_0) == Some(lease));
    law_holder_stays_until_the_end(after, key, lease, now_ms, at_ms);
    law_holder_stays_until_the_end(table, key, table.live(key, now_ms)->0, now_ms, at_ms);
}

/// Who is entitled to renew or to release does so, unless the revisions are used up or
/// the transition cannot be announced. Who is not changes nothing.
pub proof fn law_only_the_entitled_renew_or_release<L: LockLayout>(
    table: TableView,
    after: TableView,
    fleet: FleetView,
    fleet_after: FleetView,
    key: KeyView,
    entitled: bool,
    now_ms: u64,
    end_ms: u64,
    renewal: Result<Option<LockLease>, Error>,
    release: Result<bool, Error>,
    other: KeyView,
    at_ms: u64,
)
    requires
        entitled ==> table.live(key, now_ms) is Some,
        table.next_revision < u64::MAX,
        entitled ==> event_fault::<L>(key, (table.live(key, now_ms)->0).owner) is None,
        now_ms <= at_ms,
    ensures
        is_renewal::<L>(
            table,
            after,
            fleet,
            fleet_after,
            key,
            entitled,
            now_ms,
            end_ms,
            renewal,
        ) ==> {
            &&& renewal is Ok
            &&& renewal->Ok_0 is Some <==> entitled
            &&& !entitled ==> after.live(other, at_ms) == table.live(other, at_ms) && fleet_after
                == fleet
        },
        is_release::<L>(table, after, fleet, fleet_after, key, entitled, now_ms, release) ==> {
            &&& release == Ok::<bool, Error>(entitled)
            &&& !entitled ==> after.live(other, at_ms) == table.live(other, at_ms) && fleet_after
                == fleet
        },
{
    if is_renewal::<L>(
        table,
        after,
        fleet,
        fleet_after,
        key,
        entitled,
        now_ms,
        end_ms,
        renewal,
    ) && entitled {
        assert(lease_view(renewal->Ok_0) is Some);
    }
}

/// A released key has no holder from now on, whatever the end of the tenure was.
pub proof fn law_released_key_has_no_holder<L: LockLayout>(
    table: TableView,
    after: TableView,
    fleet: FleetView,
    fleet_after: FleetView,
    key: KeyView,
    entitled: bool,
    now_ms: u64,
    result: Result<bool, Error>,
    at_ms: u64,
)
    requires
        is_release::<L>(table, after, fleet, fleet_after, key, entitled, now_ms, result),
        result == Ok::<bool, Error>(true),
        now_ms <= at_ms,
    ensures
        after.live(key, at_ms) is None,
{
    law_free_key_stays_free(after, key, now_ms, at_ms);
}

/// No request touches another key: whoever holds it now or later is the same.
pub proof fn law_requests_leave_other_keys_alone<L: LockLayout>(
    table: TableView,
    after: TableView,
    fleet: FleetView,
    fleet_after: FleetView,
    key: KeyView,
    owner: Seq<u8>,
    entitled: bool,
    now_ms: u64,
    end_ms: u64,
    acquire: Result<LockAcquire, Error>,
    renewal: Result<Option<LockLease>, Error>,
    release: Result<bool, Error>,
    other: KeyView,
    at_ms: u64,
)
    requires
        other != key,
        now_ms <= at_ms,
        ({
            ||| is_acquire::<L>(
                table,
                after,
                fleet,
                fleet_after,
                key,
                owner,
                now_ms,
                end_ms,
                acquire,
            )
            ||| is_renewal::<L>(
                table,
                after,
                fleet,
                fleet_after,
                key,
                entitled,
                now_ms,
                end_ms,
                renewal,
            )
            ||| is_release::<L>(table, after, fleet, fleet_after, key, entitled, now_ms, release)
        }),
    ensures
        after.live(other, at_ms) == table.live(other, at_ms),
{
}

/// A table is full only where every one of its places is taken by a tenure that is not
/// over, or by what is nobody's; two places never by one key.
pub proof fn law_full_table_has_no_place(table: TableView, now_ms: u64, i: int, j: int)
    requires
        table.wf(),
        0 <= i < table.slots.len(),
        0 <= j < table.slots.len(),
    ensures
        table.slots.len() == 256,
        table.slots[i] is Empty || table.slots[i] is Tombstone ==> !table.full(now_ms),
        table.slots[i] matches SlotView::Occupied(lease) && lease.expires_at_ms <= now_ms
            ==> !table.full(now_ms),
        (forall|k: int|
            0 <= k < table.slots.len() ==> (#[trigger] table.slots[k]) is Occupied
                && table.slots[k]->Occupied_0.expires_at_ms > now_ms) ==> table.full(now_ms),
        table.slots[i] is Occupied && table.slots[j] is Occupied && i != j
            ==> table.slots[i]->Occupied_0.key != table.slots[j]->Occupied_0.key,
{
    let all = places(table.slots);
    assert(all[i] == table.slots[i].place());
    assert(all[j] == table.slots[j].place());
    if table.full(now_ms) {
        assert(table.slots[i].taken(now_ms));
    }
}

/// Which keys and owners are accepted: none of them empty, and all of them together no
/// longer than a place has room for.
pub proof fn law_entries_are_accepted_where_they_fit(key: KeyView, owner: Seq<u8>)
    ensures
        key_fault(key) is None <==> key.namespace.len() > 0 && key.label.len() > 0
            && key.namespace.len() + key.label.len() <= 960,
        entry_fault(key, owner) is None <==> key.namespace.len() > 0 && key.label.len() > 0
            && owner.len() > 0 && key.namespace.len() + key.label.len() + owner.len() <= 960,
        key.namespace.len() == 0 ==> entry_fault(key, owner) == Some(Error::NamespaceEmpty),
        key.namespace.len() > 0 && key.label.len() == 0 ==> entry_fault(key, owner) == Some(
            Error::KeyEmpty,
        ),
        key_fault(key) is None && owner.len() == 0 ==> entry_fault(key, owner) == Some(
            Error::OwnerEmpty,
        ),
{
}

/// A transition can be announced exactly where its record fits the ring.
pub proof fn law_transition_is_announced_where_it_fits<L: LockLayout>(transition: TransitionView)
    ensures
        event_fault::<L>(transition.key(), transition.owner()) is None ==> event_record(
            transition,
        ).len() <= L::EVENT_RING_PAYLOAD_CAPACITY || transition.key().namespace.len()
            + transition.key().label.len() + transition.owner().len() == 0,
        event_record(transition).len() <= L::EVENT_RING_PAYLOAD_CAPACITY
            && transition.key().namespace.len() + transition.key().label.len()
            + transition.owner().len() <= 960 ==> event_fault::<L>(
            transition.key(),
            transition.owner(),
        ) is None,
{
    broadcast use crate::codec::group_widths;

    let bytes = event_record(transition);
    assert(bytes.len() == 35 + transition.key().namespace.len() + transition.key().label.len()
        + transition.owner().len());
}

/// A minted tenure says by its id which kind of state and which node it is of.
pub proof fn law_tenure_names_its_node<L: LockLayout>(
    table: TableView,
    after: TableView,
    fleet: FleetView,
    fleet_after: FleetView,
    key: KeyView,
    owner: Seq<u8>,
    now_ms: u64,
    end_ms: u64,
    result: Result<LockAcquire, Error>,
)
    requires
        is_acquire::<L>(table, after, fleet, fleet_after, key, owner, now_ms, end_ms, result),
        result matches Ok(answer) && answer@ is Acquired,
    ensures
        kind_of((result->Ok_0@->Acquired_0).lock_id.0) == L::STATE_KIND,
        node_of((result->Ok_0@->Acquired_0).lock_id.0) == fleet.node,
{
    lemma_pack(L::STATE_KIND, fleet.node, (table.next_lock + 1) as u64);
}

/// What is announced is what followers are told: a follower that was at the head of
/// every lane reads exactly this transition.
pub proof fn law_announced_transition_is_polled<L: LockLayout>(
    fleet: FleetView,
    transition: TransitionView,
)
    requires
        layout_fault::<L>() is None,
        fleet.wf(),
        ready::<L>(fleet),
        fleet.own_lane::<LockEventRecord<L>>().head < 0x100_0000_0000,
        transition.key().namespace.len() > 0,
        transition.key().label.len() > 0,
        transition.owner().len() > 0,
        event_fault::<L>(transition.key(), transition.owner()) is None,
        transition.state_revision() != 0,
        transition matches TransitionView::Acquired(lease) ==> 0 < lease.acquired_at_ms
            < lease.expires_at_ms,
        transition matches TransitionView::Renewed(lease) ==> 0 < lease.acquired_at_ms
            < lease.expires_at_ms,
    ensures
        ({
            let positions = lane_heads(fleet.ring::<LockEventRecord<L>>());
            let ring = announced::<L>(fleet, transition).ring::<LockEventRecord<L>>();
            let frames = lanes_frames(ring, positions, positions.len());
            let events = by_revision(decode_all(frames));
            events.len() == 1 && events[0].transition == transition && frames.len() == 1
        }),
{
    lemma_event_record::<L>();
    lemma_ring_fits::<LockEventRecord<L>>(fleet);
    let ring = fleet.ring::<LockEventRecord<L>>();
    let frame = ring.next_frame(
        fleet.node,
        frame_kind_of(transition),
        transition.state_revision(),
        event_record(transition),
    );
    law_publish_then_poll(ring, fleet.node, frame);
    law_transition_round_trip(frame.id, transition);
    let frames = seq![frame];
    assert(frames.drop_last() =~= Seq::<FrameView>::empty());
    assert(decode_all(frames.drop_last()) =~= Seq::<EventView>::empty());
    assert(decoded(frame) == Some(EventView { event_id: frame.id, transition }));
    let events = decode_all(frames);
    assert(events =~= seq![EventView { event_id: frame.id, transition }]);
    assert(events.drop_last() =~= Seq::<EventView>::empty());
    assert(by_revision(events.drop_last()) =~= Seq::<EventView>::empty());
    assert(by_revision(events) =~= events);
}

/// What a poll gives of the frames that it meets: the transitions of those that are
/// transitions, in the order of the frames, and nothing of the others.
pub proof fn law_poll_gives_every_transition(frames: Seq<FrameView>) -> (places: Seq<int>)
    ensures
        ascending(places, frames.len() as int),
        decode_all(frames).len() == places.len(),
        forall|i: int|
            0 <= i < places.len() ==> decoded(frames[#[trigger] places[i]]) == Some(
                decode_all(frames)[i],
            ),
        forall|p: int|
            0 <= p < frames.len() ==> (decoded(#[trigger] frames[p]) is Some
                <==> places.contains(p)),
{
    let meaning = |frame: FrameView| decoded(frame);
    lemma_meant(frames, meaning);
    lemma_transitions_are_meant(frames);
    meant_at(frames, meaning)
}

proof fn lemma_transitions_are_meant(frames: Seq<FrameView>)
    ensures
        decode_all(frames) == meant(frames, |frame: FrameView| decoded(frame)),
    decreases frames.len(),
{
    if frames.len() > 0 {
        lemma_transitions_are_meant(frames.drop_last());
    }
}

/// A poll accounts for every counter between the cursors and the heads: each gives a
/// transition, or is counted as malformed, or as lost.
pub proof fn law_poll_accounts_for_every_counter(ring: RingView, positions: Seq<u64>)
    ensures
        ({
            let frames = lanes_frames(ring, positions, positions.len());
            let events = by_revision(decode_all(frames));
            let malformed = frames.len() - decode_all(frames).len();
            &&& 0 <= malformed
            &&& events.len() + malformed + lanes_overwritten(ring, positions, positions.len())
                + lanes_unavailable(ring, positions, positions.len()) == behind(
                ring,
                positions,
                positions.len(),
            )
        }),
{
    let frames = lanes_frames(ring, positions, positions.len());
    crate::fleet::laws::law_poll_accounts_for_every_counter(ring, positions, positions.len());
    let places = law_poll_gives_every_transition(frames);
    lemma_no_more_places(places, frames.len() as int);
    law_events_are_in_order(decode_all(frames));
}

/// Events with one revision keep the order in which they were read.
pub proof fn law_equal_revisions_keep_their_order(events: Seq<EventView>, revision: u64)
    ensures
        by_revision(events).filter(
            |event: EventView| event.transition.state_revision() == revision,
        ) == events.filter(|event: EventView| event.transition.state_revision() == revision),
    decreases events.len(),
{
    reveal(Seq::filter);
    if events.len() > 0 {
        law_equal_revisions_keep_their_order(events.drop_last(), revision);
        law_events_are_in_order(events.drop_last());
        lemma_insert_filtered(by_revision(events.drop_last()), events.last(), revision);
    }
}

proof fn lemma_insert_filtered(events: Seq<EventView>, event: EventView, revision: u64)
    requires
        in_order(events),
    ensures
        ({
            let same = |item: EventView| item.transition.state_revision() == revision;
            insert_by_revision(events, event).filter(same) == if same(event) {
                events.filter(same).push(event)
            } else {
                events.filter(same)
            }
        }),
    decreases events.len(),
{
    reveal(Seq::filter);
    let same = |item: EventView| item.transition.state_revision() == revision;
    let after = insert_by_revision(events, event);
    if events.len() == 0 || event.transition.state_revision()
        >= events.last().transition.state_revision() {
        assert(after.drop_last() =~= events);
    } else {
        let shorter = events.drop_last();
        assert(in_order(shorter)) by {
            assert forall|i: int, j: int| 0 <= i < j < shorter.len() implies (
            #[trigger] shorter[i]).transition.state_revision() <= (
            #[trigger] shorter[j]).transition.state_revision() by {
                assert(events[i] == shorter[i] && events[j] == shorter[j]);
            }
        }
        lemma_insert_filtered(shorter, event, revision);
        assert(after.drop_last() =~= insert_by_revision(shorter, event));
        assert(after.last() == events.last());
    }
}

/// What is done is announced: an acquired, a renewed and a released tenure each as what it
/// is, once, and nothing where nothing was done.
pub proof fn law_what_is_done_is_announced<L: LockLayout>(
    table: TableView,
    after: TableView,
    fleet: FleetView,
    fleet_after: FleetView,
    key: KeyView,
    owner: Seq<u8>,
    entitled: bool,
    now_ms: u64,
    end_ms: u64,
    acquire: Result<LockAcquire, Error>,
    renewal: Result<Option<LockLease>, Error>,
    release: Result<bool, Error>,
)
    ensures
        is_acquire::<L>(
            table,
            after,
            fleet,
            fleet_after,
            key,
            owner,
            now_ms,
            end_ms,
            acquire,
        ) ==> fleet_after == if acquire is Ok && acquire->Ok_0@ is Acquired {
            announced::<L>(fleet, TransitionView::Acquired(acquire->Ok_0@->Acquired_0))
        } else {
            fleet
        },
        is_renewal::<L>(
            table,
            after,
            fleet,
            fleet_after,
            key,
            entitled,
            now_ms,
            end_ms,
            renewal,
        ) ==> fleet_after == if renewal is Ok && renewal->Ok_0 is Some {
            announced::<L>(fleet, TransitionView::Renewed((renewal->Ok_0)->0@))
        } else {
            fleet
        },
        is_release::<L>(table, after, fleet, fleet_after, key, entitled, now_ms, release)
            ==> fleet_after == if release == Ok::<bool, Error>(true) {
            announced::<L>(
                fleet,
                TransitionView::Released {
                    lock_id: (table.live(key, now_ms)->0).lock_id,
                    key,
                    owner: (table.live(key, now_ms)->0).owner,
                    state_revision: (table.next_revision + 1) as u64,
                },
            )
        } else {
            fleet
        },
{
    if let Ok(Some(lease)) = renewal {
        assert(lease_view(renewal->Ok_0) == Some(lease@));
    }
}

/// Every transition has a revision of its own, above all that came before it: what is done
/// takes the next one, and what is only asked takes none.
pub proof fn law_transitions_are_numbered<L: LockLayout>(
    table: TableView,
    after: TableView,
    fleet: FleetView,
    fleet_after: FleetView,
    key: KeyView,
    owner: Seq<u8>,
    entitled: bool,
    now_ms: u64,
    end_ms: u64,
    acquire: Result<LockAcquire, Error>,
    renewal: Result<Option<LockLease>, Error>,
    release: Result<bool, Error>,
)
    ensures
        is_acquire::<L>(
            table,
            after,
            fleet,
            fleet_after,
            key,
            owner,
            now_ms,
            end_ms,
            acquire,
        ) ==> {
            &&& table.next_revision <= after.next_revision
            &&& table.next_lock <= after.next_lock
            &&& acquire is Ok && acquire->Ok_0@ is Acquired ==> {
                &&& after.next_revision == table.next_revision + 1
                &&& after.next_lock == table.next_lock + 1
                &&& (acquire->Ok_0@->Acquired_0).state_revision == after.next_revision
            }
            &&& acquire is Ok && acquire->Ok_0@ is Occupied ==> after.next_revision
                == table.next_revision && after.next_lock == table.next_lock
        },
        is_renewal::<L>(
            table,
            after,
            fleet,
            fleet_after,
            key,
            entitled,
            now_ms,
            end_ms,
            renewal,
        ) ==> {
            &&& after.next_lock == table.next_lock
            &&& renewal is Ok && renewal->Ok_0 is Some ==> after.next_revision
                == table.next_revision + 1
            &&& renewal is Ok && renewal->Ok_0 is None ==> after.next_revision
                == table.next_revision
        },
        is_release::<L>(table, after, fleet, fleet_after, key, entitled, now_ms, release) ==> {
            &&& after.next_lock == table.next_lock
            &&& release == Ok::<bool, Error>(true) ==> after.next_revision == table.next_revision
                + 1
            &&& release == Ok::<bool, Error>(false) ==> after.next_revision == table.next_revision
        },
{
    if let Ok(Some(lease)) = renewal {
        assert(lease_view(renewal->Ok_0) == Some(lease@));
    }
}

/// Whoever is in the table and not over holds its key, and whoever holds a key is in the
/// table and not over.
pub proof fn law_holders_are_in_the_table(
    table: TableView,
    i: int,
    key: KeyView,
    now_ms: u64,
)
    requires
        table.wf(),
        0 <= i < table.slots.len(),
    ensures
        table.slots[i] is Occupied && table.slots[i]->Occupied_0.key == key
            && table.slots[i]->Occupied_0.expires_at_ms > now_ms ==> table.live(key, now_ms)
            == Some(table.slots[i]->Occupied_0),
        table.live(key, now_ms) matches Some(lease) ==> lease.key == key && lease.expires_at_ms
            > now_ms && table.slots.contains(SlotView::Occupied(lease)),
{
    if table.slots[i] is Occupied && table.slots[i]->Occupied_0.key == key
        && table.slots[i]->Occupied_0.expires_at_ms > now_ms {
        assert(table.live_at(i, key, now_ms));
        lemma_live_at(table, i, key, now_ms);
    }
    if let Some(lease) = table.live(key, now_ms) {
        let j = choose|j: int| #[trigger] table.live_at(j, key, now_ms);
        assert(table.slots[j] == SlotView::Occupied(lease));
    }
}

} // verus!
