//! Fleet-shared keyed locks.
//!
//! Current ownership lives in a table of fixed capacity. A ring carries
//! successful transitions to reactive consumers.
use std::marker::PhantomData;
use vstd::prelude::*;

use crate::codec::same_bytes;
use crate::fleet::cursor::{
    lane_heads, lanes_frames, lanes_overwritten, lanes_unavailable, FleetLaneCursor,
    LaneCursorView,
};
use crate::fleet::rings::FleetRings;
use crate::fleet::{lemma_ring_fits, FleetView};
use crate::lock::keys::{
    lease_view, AcquireView, EventView, KeyView, LeaseView, TransitionView,
};
use crate::lock::layout::{
    layout_fault, lemma_default_layout, lemma_event_record, validate, LockEventRecord,
};
use crate::lock::protocol::{decode, decoded, encode, event_fault, event_record, frame_kind_of};
use crate::lock::state::{
    entry_fault, key_fault, lemma_live_at, lemma_swept_live, minted, places, renewed, swept,
    AcquirePlan, TableView, LOCK_COUNTER_MAX, LOCK_STATE_CAPACITY,
};
use crate::numbers::{max_of, min_of};
use crate::probe::Place;
use crate::ring::cursor::RingLoss;
use crate::ring::{frame_views, FrameView, RingView};
use crate::typed::declared;

pub mod error;
pub mod fence;
pub mod history;
pub mod image;
pub mod keys;
pub mod laws;
pub mod layout;
pub mod promises;
pub mod protocol;
pub mod state;

pub use crate::lock::error::Error;
pub use crate::lock::fence::{Fence, FenceToken};
pub use crate::lock::keys::{
    LockAcquire, LockEvent, LockKey, LockLease, LockOwner, LockTransition, LockType,
};
pub use crate::lock::layout::{DefaultLockLayout, LockLayout};
pub use crate::lock::state::LockTable;

verus! {

/// The end of a tenure that begins now and lasts this long, in nanoseconds. A
/// tenure shorter than a millisecond lasts one.
pub open spec fn deadline_of(now_ms: u64, ttl_nanos: u128) -> Result<u64, Error> {
    let ttl_ms = max_of(ttl_nanos as int / 1_000_000, 1);
    if ttl_nanos == 0 {
        Err(Error::TtlZero)
    } else if ttl_ms > u64::MAX || now_ms + ttl_ms > u64::MAX {
        Err(Error::TtlOverflow)
    } else {
        Ok((now_ms + ttl_ms) as u64)
    }
}

/// The end of a tenure that begins now and lasts this long, in nanoseconds.
pub fn deadline(now_ms: u64, ttl_nanos: u128) -> (end: Result<u64, Error>)
    ensures
        end == deadline_of(now_ms, ttl_nanos),
{
    if ttl_nanos == 0 {
        return Err(Error::TtlZero);
    }
    let millis: u128 = ttl_nanos / 1_000_000;
    let ttl_ms: u128 = if millis < 1 {
        1
    } else {
        millis
    };
    if ttl_ms > 0xffff_ffff_ffff_ffff {
        return Err(Error::TtlOverflow);
    }
    match now_ms.checked_add(ttl_ms as u64) {
        Some(end) => Ok(end),
        None => Err(Error::TtlOverflow),
    }
}

/// True when both tables have the same tenures that are not over, now and
/// later, of every key but this one.
pub open spec fn same_but(before: TableView, after: TableView, key: KeyView, now_ms: u64) -> bool {
    forall|other: KeyView, later: u64|
        other != key && now_ms <= later ==> #[trigger] after.live(other, later) == before.live(
            other,
            later,
        )
}

/// True when both tables have the same tenures that are not over, now and
/// later.
pub open spec fn same_live(before: TableView, after: TableView, now_ms: u64) -> bool {
    forall|key: KeyView, later: u64|
        now_ms <= later ==> #[trigger] after.live(key, later) == before.live(key, later)
}

proof fn lemma_same_live(before: TableView, after: TableView, now_ms: u64)
    requires
        before.wf(),
        after.wf(),
        swept(before.slots, after.slots, now_ms),
    ensures
        same_live(before, after, now_ms),
{
    assert forall|key: KeyView, later: u64| now_ms <= later implies #[trigger] after.live(
        key,
        later,
    ) == before.live(key, later) by {
        lemma_swept_live(before, after, key, now_ms, later);
    }
}

/// A tenure that was written is its key's tenure until it is over; other keys
/// keep theirs.
proof fn lemma_written(table: TableView, place: int, lease: LeaseView, now_ms: u64)
    requires
        table.wf(),
        table.write(place, lease).wf(),
        table.admits(place, lease.key) || table.occupies(place, lease.key),
    ensures
        same_but(table, table.write(place, lease), lease.key, now_ms),
        forall|later: u64| #[trigger]
            table.write(place, lease).live(lease.key, later) == (if lease.expired(later) {
                None
            } else {
                Some(lease)
            }),
{
    let after = table.write(place, lease);
    assert forall|other: KeyView, later: u64|
        other != lease.key && now_ms <= later implies #[trigger] after.live(other, later)
        == table.live(other, later) by {
        if exists|i: int| #[trigger] table.live_at(i, other, later) {
            let i = choose|i: int| #[trigger] table.live_at(i, other, later);
            assert(after.live_at(i, other, later));
            lemma_live_at(after, i, other, later);
        } else if exists|i: int| #[trigger] after.live_at(i, other, later) {
            let i = choose|i: int| #[trigger] after.live_at(i, other, later);
            assert(table.live_at(i, other, later));
        }
    }
    assert forall|later: u64| #[trigger] after.live(lease.key, later) == (if lease.expired(later) {
        None
    } else {
        Some(lease)
    }) by {
        if !lease.expired(later) {
            assert(after.live_at(place, lease.key, later));
            lemma_live_at(after, place, lease.key, later);
        } else if exists|i: int| #[trigger] after.live_at(i, lease.key, later) {
            let i = choose|i: int| #[trigger] after.live_at(i, lease.key, later);
            assert(places(after.slots)[i] == Place::Held(lease.key));
            assert(places(after.slots)[place] == Place::Held(lease.key));
        }
    }
}

/// A place that was given up ends its key's tenure; other keys keep theirs.
proof fn lemma_given_up(table: TableView, place: int, key: KeyView, now_ms: u64)
    requires
        table.wf(),
        table.give_up(place).wf(),
        table.occupies(place, key),
    ensures
        same_but(table, table.give_up(place), key, now_ms),
        forall|later: u64| #[trigger] table.give_up(place).live(key, later) is None,
{
    let after = table.give_up(place);
    assert forall|other: KeyView, later: u64| other != key && now_ms <= later implies #[trigger] after.live(
        other,
        later,
    ) == table.live(other, later) by {
        if exists|i: int| #[trigger] table.live_at(i, other, later) {
            let i = choose|i: int| #[trigger] table.live_at(i, other, later);
            assert(after.live_at(i, other, later));
            lemma_live_at(after, i, other, later);
        } else if exists|i: int| #[trigger] after.live_at(i, other, later) {
            let i = choose|i: int| #[trigger] after.live_at(i, other, later);
            assert(table.live_at(i, other, later));
        }
    }
    assert forall|later: u64| #[trigger] after.live(key, later) is None by {
        if exists|i: int| #[trigger] after.live_at(i, key, later) {
            let i = choose|i: int| #[trigger] after.live_at(i, key, later);
            assert(places(table.slots)[i] == Place::Held(key));
            assert(places(table.slots)[place] == Place::Held(key));
        }
    }
}

/// The fleet after a transition was published.
pub open spec fn announced<L: LockLayout>(
    fleet: FleetView,
    transition: TransitionView,
) -> FleetView {
    let ring = fleet.ring::<LockEventRecord<L>>();
    fleet.with_ring::<LockEventRecord<L>>(
        ring.append(
            ring.spec.lane_of(fleet.node),
            ring.next_frame(
                fleet.node,
                frame_kind_of(transition),
                transition.state_revision(),
                event_record(transition),
            ),
        ),
    )
}

/// What an attempt to acquire a lock until `expires_at_ms` gives.
pub open spec fn is_acquire<L: LockLayout>(
    table: TableView,
    after: TableView,
    fleet: FleetView,
    fleet_after: FleetView,
    key: KeyView,
    owner: Seq<u8>,
    now_ms: u64,
    expires_at_ms: u64,
    result: Result<LockAcquire, Error>,
) -> bool {
    let lease = minted(table, L::STATE_KIND, fleet.node, key, owner, now_ms, expires_at_ms);
    if entry_fault(key, owner) is Some {
        &&& result == Err::<LockAcquire, Error>(entry_fault(key, owner)->0)
        &&& after == table
        &&& fleet_after == fleet
    } else if table.live(key, now_ms) is Some {
        &&& result is Ok
        &&& result->Ok_0@ == AcquireView::Occupied(table.live(key, now_ms)->0)
        &&& same_live(table, after, now_ms)
        &&& after.next_lock == table.next_lock
        &&& after.next_revision == table.next_revision
        &&& fleet_after == fleet
    } else if table.full(now_ms) {
        &&& result == Err::<LockAcquire, Error>(Error::StateFull { capacity: LOCK_STATE_CAPACITY })
        &&& same_live(table, after, now_ms)
        &&& after.next_lock == table.next_lock
        &&& after.next_revision == table.next_revision
        &&& fleet_after == fleet
    } else if table.next_lock >= LOCK_COUNTER_MAX || table.next_revision == u64::MAX {
        &&& result == Err::<LockAcquire, Error>(Error::IdExhausted)
        &&& same_live(table, after, now_ms)
        &&& after.next_lock == (if table.next_lock >= LOCK_COUNTER_MAX {
            table.next_lock
        } else {
            (table.next_lock + 1) as u64
        })
        &&& after.next_revision == table.next_revision
        &&& fleet_after == fleet
    } else {
        &&& after.next_lock == table.next_lock + 1
        &&& after.next_revision == table.next_revision + 1
        &&& if event_fault::<L>(key, owner) is Some {
            &&& result == Err::<LockAcquire, Error>(event_fault::<L>(key, owner)->0)
            &&& same_live(table, after, now_ms)
            &&& fleet_after == fleet
        } else {
            &&& result is Ok
            &&& result->Ok_0@ == AcquireView::Acquired(lease)
            &&& after.live(key, now_ms) == Some(lease)
            &&& same_but(table, after, key, now_ms)
            &&& fleet_after == announced::<L>(fleet, TransitionView::Acquired(lease))
        }
    }
}

/// What a renewal until `expires_at_ms` gives, where `entitled` says whether
/// the caller may renew.
pub open spec fn is_renewal<L: LockLayout>(
    table: TableView,
    after: TableView,
    fleet: FleetView,
    fleet_after: FleetView,
    key: KeyView,
    entitled: bool,
    now_ms: u64,
    expires_at_ms: u64,
    result: Result<Option<LockLease>, Error>,
) -> bool {
    let lease = renewed(
        table.live(key, now_ms)->0,
        expires_at_ms,
        (table.next_revision + 1) as u64,
    );
    &&& after.next_lock == table.next_lock
    &&& if !entitled {
        &&& result == Ok::<Option<LockLease>, Error>(None)
        &&& same_live(table, after, now_ms)
        &&& after.next_revision == table.next_revision
        &&& fleet_after == fleet
    } else if table.next_revision == u64::MAX {
        &&& result == Err::<Option<LockLease>, Error>(Error::IdExhausted)
        &&& same_live(table, after, now_ms)
        &&& after.next_revision == table.next_revision
        &&& fleet_after == fleet
    } else {
        &&& after.next_revision == table.next_revision + 1
        &&& if event_fault::<L>(key, lease.owner) is Some {
            &&& result == Err::<Option<LockLease>, Error>(event_fault::<L>(key, lease.owner)->0)
            &&& same_live(table, after, now_ms)
            &&& fleet_after == fleet
        } else {
            &&& result is Ok
            &&& lease_view(result->Ok_0) == Some(lease)
            &&& after.live(key, now_ms) == Some(lease)
            &&& same_but(table, after, key, now_ms)
            &&& fleet_after == announced::<L>(fleet, TransitionView::Renewed(lease))
        }
    }
}

/// What a release gives, where `entitled` says whether the caller may release.
pub open spec fn is_release<L: LockLayout>(
    table: TableView,
    after: TableView,
    fleet: FleetView,
    fleet_after: FleetView,
    key: KeyView,
    entitled: bool,
    now_ms: u64,
    result: Result<bool, Error>,
) -> bool {
    let lease = table.live(key, now_ms)->0;
    &&& after.next_lock == table.next_lock
    &&& if !entitled {
        &&& result == Ok::<bool, Error>(false)
        &&& same_live(table, after, now_ms)
        &&& after.next_revision == table.next_revision
        &&& fleet_after == fleet
    } else if table.next_revision == u64::MAX {
        &&& result == Err::<bool, Error>(Error::IdExhausted)
        &&& same_live(table, after, now_ms)
        &&& after.next_revision == table.next_revision
        &&& fleet_after == fleet
    } else {
        &&& after.next_revision == table.next_revision + 1
        &&& if event_fault::<L>(key, lease.owner) is Some {
            &&& result == Err::<bool, Error>(event_fault::<L>(key, lease.owner)->0)
            &&& same_live(table, after, now_ms)
            &&& fleet_after == fleet
        } else {
            &&& result == Ok::<bool, Error>(true)
            &&& after.live(key, now_ms) is None
            &&& same_but(table, after, key, now_ms)
            &&& fleet_after == announced::<L>(
                fleet,
                TransitionView::Released {
                    lock_id: lease.lock_id,
                    key,
                    owner: lease.owner,
                    state_revision: (table.next_revision + 1) as u64,
                },
            )
        }
    }
}

/// Result of advancing an event cursor.
#[derive(Debug, PartialEq, Eq)]
pub struct LockPoll {
    pub events: Vec<LockEvent>,
    pub loss: RingLoss,
    pub malformed: u64,
}

impl LockPoll {
    /// True when nothing was read, lost or malformed.
    pub fn is_empty(&self) -> (empty: bool)
        ensures
            empty == (self.events@.len() == 0 && self.loss.overwritten == 0
                && self.loss.unavailable == 0 && self.malformed == 0),
    {
        self.events.len() == 0 && self.loss.is_empty() && self.malformed == 0
    }
}

/// What each event of a sequence says.
pub open spec fn event_views(events: Seq<LockEvent>) -> Seq<EventView> {
    events.map_values(|event: LockEvent| event@)
}

/// The events of these frames, in order; frames that are none are left out.
pub open spec fn decode_all(frames: Seq<FrameView>) -> Seq<EventView>
    decreases frames.len(),
{
    if frames.len() == 0 {
        Seq::empty()
    } else {
        let before = decode_all(frames.drop_last());
        match decoded(frames.last()) {
            Some(event) => before.push(event),
            None => before,
        }
    }
}

/// An event inserted behind every event that does not come after it.
pub open spec fn insert_by_revision(events: Seq<EventView>, event: EventView) -> Seq<EventView>
    decreases events.len(),
{
    if events.len() == 0 || event.transition.state_revision()
        >= events.last().transition.state_revision() {
        events.push(event)
    } else {
        insert_by_revision(events.drop_last(), event).push(events.last())
    }
}

/// The events in the order of their revisions. Events with one revision keep
/// their order.
pub open spec fn by_revision(events: Seq<EventView>) -> Seq<EventView>
    decreases events.len(),
{
    if events.len() == 0 {
        Seq::empty()
    } else {
        insert_by_revision(by_revision(events.drop_last()), events.last())
    }
}

proof fn lemma_insert_place(events: Seq<EventView>, event: EventView, place: int)
    requires
        0 <= place <= events.len(),
        forall|i: int|
            place <= i < events.len() ==> event.transition.state_revision() < (
            #[trigger] events[i]).transition.state_revision(),
        place > 0 ==> event.transition.state_revision() >= events[place
            - 1].transition.state_revision(),
    ensures
        insert_by_revision(events, event) == events.insert(place, event),
    decreases events.len(),
{
    if place == events.len() {
        assert(events.insert(place, event) =~= events.push(event));
    } else {
        let shorter = events.drop_last();
        lemma_insert_place(shorter, event, place);
        assert(events.insert(place, event) =~= shorter.insert(place, event).push(events.last()));
    }
}

fn sort_by_revision(events: Vec<LockEvent>) -> (sorted: Vec<LockEvent>)
    ensures
        event_views(sorted@) == by_revision(event_views(events@)),
{
    let ghost views = event_views(events@);
    let mut sorted: Vec<LockEvent> = Vec::new();
    let mut rest: Vec<LockEvent> = events;
    let total: usize = rest.len();
    let mut taken: usize = 0;
    assert(event_views(sorted@) =~= by_revision(views.subrange(0, 0)));
    assert(event_views(rest@) =~= views.subrange(0, total as int));
    while taken < total
        invariant
            taken <= total,
            total == views.len(),
            event_views(rest@) == views.subrange(taken as int, total as int),
            event_views(sorted@) == by_revision(views.subrange(0, taken as int)),
        decreases total - taken,
    {
        let ghost before = rest@;
        assert(rest@.len() == event_views(rest@).len());
        let event = rest.remove(0);
        proof {
            assert(event@ == event_views(before)[0]);
            assert(event@ == views[taken as int]);
            assert(event_views(rest@) =~= views.subrange(taken + 1, total as int)) by {
                assert forall|i: int| 0 <= i < rest@.len() implies #[trigger] event_views(rest@)[i]
                    == views[taken + 1 + i] by {
                    assert(rest@[i] == before[i + 1]);
                    assert(event_views(before)[i + 1] == views[taken + 1 + i]);
                }
            }
        }
        let mut place: usize = sorted.len();
        let revision: u64 = event.transition.state_revision();
        while place > 0 && revision < sorted[place - 1].transition.state_revision()
            invariant
                place <= sorted@.len(),
                revision == event@.transition.state_revision(),
                forall|i: int|
                    place <= i < sorted@.len() ==> revision < (#[trigger] event_views(
                        sorted@,
                    )[i]).transition.state_revision(),
            decreases place,
        {
            place = place - 1;
        }
        let ghost prefix = views.subrange(0, taken + 1);
        proof {
            if place > 0 {
                assert(event_views(sorted@)[place - 1] == sorted@[place - 1]@);
            }
            lemma_insert_place(event_views(sorted@), event@, place as int);
            assert(prefix.drop_last() =~= views.subrange(0, taken as int));
            assert(prefix.last() == event@);
        }
        let ghost old_sorted = sorted@;
        sorted.insert(place, event);
        assert(event_views(sorted@) =~= event_views(old_sorted).insert(place as int, event@));
        taken = taken + 1;
    }
    assert(views.subrange(0, total as int) =~= views);
    sorted
}

/// Handle on one lock domain: an event cursor over the fleet's rings. The table
/// of current locks is shared by every handle on the domain and handed to each
/// operation.
pub struct Lock<L: LockLayout> {
    cursor: FleetLaneCursor,
    layout: PhantomData<L>,
}

impl<L: LockLayout> View for Lock<L> {
    type V = LaneCursorView;

    closed spec fn view(&self) -> LaneCursorView {
        self.cursor@
    }
}

/// True when the event ring of a layout can be used with a handle.
pub open spec fn ready<L: LockLayout>(fleet: FleetView) -> bool {
    fleet.usable::<LockEventRecord<L>>()
}

/// What opening a lock domain gives.
pub open spec fn opened<L: LockLayout>(
    fleet: FleetView,
    replay_retained: bool,
    lock: Result<Lock<L>, Error>,
) -> bool {
    match layout_fault::<L>() {
        Some(fault) => lock matches Err(Error::InvalidLayout(message)) && message@ == fault,
        None => {
            &&& lock is Ok
            &&& lock->Ok_0@ == (LaneCursorView {
                positions: if replay_retained {
                    Seq::new(fleet.capacity as nat, |i: int| 0u64)
                } else {
                    lane_heads(fleet.ring::<LockEventRecord<L>>())
                },
                initial: 0,
            })
            &&& lock->Ok_0@.fits(fleet.capacity)
        },
    }
}

impl Lock<DefaultLockLayout> {
    /// Follows future transitions of the default domain.
    pub fn new<F: FleetRings>(fleet: &F) -> (lock: Result<Lock<DefaultLockLayout>, Error>)
        requires
            fleet.sound(),
            fleet.held().unclaimed::<LockEventRecord<DefaultLockLayout>>(),
        ensures
            lock is Ok,
            opened(fleet.held(), false, lock),
            ready::<DefaultLockLayout>(fleet.held()),
    {
        proof {
            lemma_default_layout();
        }
        Lock::open(fleet, false)
    }

    /// Follows the transitions that the ring still retains, and future ones.
    pub fn replay_retained<F: FleetRings>(
        fleet: &F,
    ) -> (lock: Result<Lock<DefaultLockLayout>, Error>)
        requires
            fleet.sound(),
        ensures
            lock is Ok,
            opened(fleet.held(), true, lock),
            declared::<LockEventRecord<DefaultLockLayout>>().valid(),
    {
        proof {
            lemma_default_layout();
        }
        Lock::open(fleet, true)
    }
}

impl<L: LockLayout> Lock<L> {
    /// Follows future transitions of a domain with its own layout.
    pub fn with_layout<F: FleetRings>(fleet: &F) -> (lock: Result<Lock<L>, Error>)
        requires
            fleet.sound(),
            layout_fault::<L>() is None ==> ready::<L>(fleet.held()),
        ensures
            opened(fleet.held(), false, lock),
    {
        Lock::open(fleet, false)
    }

    /// Follows the transitions that the ring of a domain with its own layout
    /// still retains, and future ones.
    pub fn replay_layout<F: FleetRings>(fleet: &F) -> (lock: Result<Lock<L>, Error>)
        requires
            fleet.sound(),
        ensures
            opened(fleet.held(), true, lock),
    {
        Lock::open(fleet, true)
    }

    fn open<F: FleetRings>(fleet: &F, replay_retained: bool) -> (lock: Result<Lock<L>, Error>)
        requires
            fleet.sound(),
            layout_fault::<L>() is None && !replay_retained ==> ready::<L>(fleet.held()),
        ensures
            opened(fleet.held(), replay_retained, lock),
    {
        match validate::<L>() {
            Ok(_) => {},
            Err(error) => {
                return Err(error);
            },
        }
        proof {
            lemma_event_record::<L>();
        }
        let cursor = if replay_retained {
            fleet.lane_cursor_from_start::<LockEventRecord<L>>()
        } else {
            fleet.lane_cursor_at_head::<LockEventRecord<L>>()
        };
        Ok(Lock { cursor, layout: PhantomData })
    }

    /// Publishes a transition.
    fn publish<F: FleetRings>(
        fleet: &mut F,
        transition: LockTransition,
    ) -> (event: Result<LockEvent, Error>)
        requires
            old(fleet).sound(),
            ready::<L>(old(fleet).held()),
            transition@.key().namespace.len() > 0,
        ensures
            final(fleet).sound(),
            ready::<L>(final(fleet).held()),
            match event_fault::<L>(transition@.key(), transition@.owner()) {
                Some(error) => event == Err::<LockEvent, Error>(error) && final(fleet).held()
                    == old(fleet).held(),
                None => {
                    &&& event is Ok
                    &&& event->Ok_0@.transition == transition@
                    &&& final(fleet).held() == announced::<L>(old(fleet).held(), transition@)
                },
            },
    {
        proof {
            lemma_event_record::<L>();
            fleet.lemma_sound();
            lemma_ring_fits::<LockEventRecord<L>>(fleet.held());
        }
        match encode::<L>(&transition) {
            Ok((kind, payload)) => {
                let event_id = fleet.publish_notified::<LockEventRecord<L>>(
                    kind,
                    transition.state_revision(),
                    payload,
                );
                Ok(LockEvent { event_id, transition })
            },
            Err(error) => Err(error),
        }
    }

    /// Tries to acquire a lock for this long, in nanoseconds.
    pub fn try_acquire<F: FleetRings>(
        &self,
        table: &mut LockTable,
        fleet: &mut F,
        key: &LockKey,
        owner: &LockOwner,
        ttl_nanos: u128,
        now_ms: u64,
    ) -> (result: Result<LockAcquire, Error>)
        requires
            old(table).wf(),
            old(fleet).sound(),
            ready::<L>(old(fleet).held()),
        ensures
            final(table).wf(),
            old(table)@.numbered() ==> final(table)@.numbered(),
            final(fleet).sound(),
            ready::<L>(final(fleet).held()),
            match deadline_of(now_ms, ttl_nanos) {
                Err(error) => {
                    &&& result == Err::<LockAcquire, Error>(error)
                    &&& final(table)@ == old(table)@
                    &&& final(fleet).held() == old(fleet).held()
                },
                Ok(expires_at_ms) => is_acquire::<L>(
                    old(table)@,
                    final(table)@,
                    old(fleet).held(),
                    final(fleet).held(),
                    key@,
                    owner@,
                    now_ms,
                    expires_at_ms,
                    result,
                ),
            },
    {
        let expires_at_ms: u64 = match deadline(now_ms, ttl_nanos) {
            Ok(end) => end,
            Err(error) => {
                return Err(error);
            },
        };
        let ghost before = table@;
        let node: u16 = fleet.node_id().get();
        let plan = table.prepare_acquire(L::STATE_KIND, node, key, owner, now_ms, expires_at_ms);
        let ghost middle = table@;
        proof {
            lemma_same_live(before, middle, now_ms);
        }
        match plan {
            Err(error) => Err(error),
            Ok(AcquirePlan::Held(lease)) => Ok(LockAcquire::Occupied(lease)),
            Ok(AcquirePlan::Free { place, lease }) => {
                match Self::publish(fleet, LockTransition::Acquired(lease.clone())) {
                    Err(error) => Err(error),
                    Ok(_) => {
                        let ghost said = lease@;
                        proof {
                            crate::id::lemma_pack(
                                L::STATE_KIND,
                                node,
                                (before.next_lock + 1) as u64,
                            );
                        }
                        table.commit_acquire(place, lease.clone());
                        proof {
                            lemma_written(middle, place as int, said, now_ms);
                            lemma_chain_same_but(before, middle, table@, key@, now_ms);
                        }
                        Ok(LockAcquire::Acquired(lease))
                    },
                }
            },
        }
    }

    /// Renews a tenure only if it is still the current one. A renewal never
    /// brings the end forward.
    pub fn renew<F: FleetRings>(
        &self,
        table: &mut LockTable,
        fleet: &mut F,
        lease: &LockLease,
        ttl_nanos: u128,
        now_ms: u64,
    ) -> (result: Result<Option<LockLease>, Error>)
        requires
            old(table).wf(),
            old(fleet).sound(),
            ready::<L>(old(fleet).held()),
        ensures
            final(table).wf(),
            old(table)@.numbered() ==> final(table)@.numbered(),
            final(fleet).sound(),
            ready::<L>(final(fleet).held()),
            match deadline_of(now_ms, ttl_nanos) {
                Err(error) => {
                    &&& result == Err::<Option<LockLease>, Error>(error)
                    &&& final(table)@ == old(table)@
                    &&& final(fleet).held() == old(fleet).held()
                },
                Ok(expires_at_ms) => match entry_fault(lease@.key, lease@.owner) {
                    Some(error) => {
                        &&& result == Err::<Option<LockLease>, Error>(error)
                        &&& final(table)@ == old(table)@
                        &&& final(fleet).held() == old(fleet).held()
                    },
                    None => is_renewal::<L>(
                        old(table)@,
                        final(table)@,
                        old(fleet).held(),
                        final(fleet).held(),
                        lease@.key,
                        old(table)@.live(lease@.key, now_ms) matches Some(current) && current.lock_id
                            == lease@.lock_id,
                        now_ms,
                        expires_at_ms,
                        result,
                    ),
                },
            },
    {
        let expires_at_ms: u64 = match deadline(now_ms, ttl_nanos) {
            Ok(end) => end,
            Err(error) => {
                return Err(error);
            },
        };
        let ghost before = table@;
        let plan = table.prepare_renew_id(lease, now_ms, expires_at_ms);
        proof {
            lemma_same_live(before, table@, now_ms);
        }
        match plan {
            Err(error) => Err(error),
            Ok(None) => Ok(None),
            Ok(Some((place, renewal))) => {
                let ghost middle = table@;
                let ghost said = renewal@;
                match Self::publish(fleet, LockTransition::Renewed(renewal.clone())) {
                    Err(error) => Err(error),
                    Ok(_) => {
                        table.commit_renew(place, renewal.clone());
                        proof {
                            lemma_written(middle, place as int, said, now_ms);
                            lemma_chain_same_but(before, middle, table@, said.key, now_ms);
                        }
                        Ok(Some(renewal))
                    },
                }
            },
        }
    }

    /// Renews the current tenure of a key if this is its owner.
    pub fn renew_owned<F: FleetRings>(
        &self,
        table: &mut LockTable,
        fleet: &mut F,
        key: &LockKey,
        owner: &LockOwner,
        ttl_nanos: u128,
        now_ms: u64,
    ) -> (result: Result<Option<LockLease>, Error>)
        requires
            old(table).wf(),
            old(fleet).sound(),
            ready::<L>(old(fleet).held()),
        ensures
            final(table).wf(),
            old(table)@.numbered() ==> final(table)@.numbered(),
            final(fleet).sound(),
            ready::<L>(final(fleet).held()),
            match deadline_of(now_ms, ttl_nanos) {
                Err(error) => {
                    &&& result == Err::<Option<LockLease>, Error>(error)
                    &&& final(table)@ == old(table)@
                    &&& final(fleet).held() == old(fleet).held()
                },
                Ok(expires_at_ms) => match entry_fault(key@, owner@) {
                    Some(error) => {
                        &&& result == Err::<Option<LockLease>, Error>(error)
                        &&& final(table)@ == old(table)@
                        &&& final(fleet).held() == old(fleet).held()
                    },
                    None => is_renewal::<L>(
                        old(table)@,
                        final(table)@,
                        old(fleet).held(),
                        final(fleet).held(),
                        key@,
                        old(table)@.live(key@, now_ms) matches Some(current) && current.owner == owner@,
                        now_ms,
                        expires_at_ms,
                        result,
                    ),
                },
            },
    {
        let expires_at_ms: u64 = match deadline(now_ms, ttl_nanos) {
            Ok(end) => end,
            Err(error) => {
                return Err(error);
            },
        };
        let ghost before = table@;
        let plan = table.prepare_renew_owner(key, owner, now_ms, expires_at_ms);
        proof {
            lemma_same_live(before, table@, now_ms);
        }
        match plan {
            Err(error) => Err(error),
            Ok(None) => Ok(None),
            Ok(Some((place, renewal))) => {
                let ghost middle = table@;
                let ghost said = renewal@;
                match Self::publish(fleet, LockTransition::Renewed(renewal.clone())) {
                    Err(error) => Err(error),
                    Ok(_) => {
                        table.commit_renew(place, renewal.clone());
                        proof {
                            lemma_written(middle, place as int, said, now_ms);
                            lemma_chain_same_but(before, middle, table@, said.key, now_ms);
                        }
                        Ok(Some(renewal))
                    },
                }
            },
        }
    }

    /// Releases a tenure only if it is still the current one.
    pub fn release<F: FleetRings>(
        &self,
        table: &mut LockTable,
        fleet: &mut F,
        lease: &LockLease,
        now_ms: u64,
    ) -> (result: Result<bool, Error>)
        requires
            old(table).wf(),
            old(fleet).sound(),
            ready::<L>(old(fleet).held()),
        ensures
            final(table).wf(),
            old(table)@.numbered() ==> final(table)@.numbered(),
            final(fleet).sound(),
            ready::<L>(final(fleet).held()),
            match entry_fault(lease@.key, lease@.owner) {
                Some(error) => {
                    &&& result == Err::<bool, Error>(error)
                    &&& final(table)@ == old(table)@
                    &&& final(fleet).held() == old(fleet).held()
                },
                None => is_release::<L>(
                    old(table)@,
                    final(table)@,
                    old(fleet).held(),
                    final(fleet).held(),
                    lease@.key,
                    old(table)@.live(lease@.key, now_ms) matches Some(current) && current.lock_id
                            == lease@.lock_id,
                    now_ms,
                    result,
                ),
            },
    {
        let ghost before = table@;
        let plan = table.prepare_release_id(lease, now_ms);
        proof {
            lemma_same_live(before, table@, now_ms);
        }
        match plan {
            Err(error) => Err(error),
            Ok(None) => Ok(false),
            Ok(Some((place, released))) => {
                let ghost middle = table@;
                let ghost said = released@;
                let transition = LockTransition::Released {
                    lock_id: released.lock_id,
                    key: released.key.clone(),
                    owner: released.owner.clone(),
                    state_revision: released.state_revision,
                };
                match Self::publish(fleet, transition) {
                    Err(error) => Err(error),
                    Ok(_) => {
                        table.commit_release(place);
                        proof {
                            lemma_given_up(middle, place as int, said.key, now_ms);
                            lemma_chain_same_but(before, middle, table@, said.key, now_ms);
                        }
                        Ok(true)
                    },
                }
            },
        }
    }

    /// Releases the current tenure of a key if this is its owner.
    pub fn release_owned<F: FleetRings>(
        &self,
        table: &mut LockTable,
        fleet: &mut F,
        key: &LockKey,
        owner: &LockOwner,
        now_ms: u64,
    ) -> (result: Result<bool, Error>)
        requires
            old(table).wf(),
            old(fleet).sound(),
            ready::<L>(old(fleet).held()),
        ensures
            final(table).wf(),
            old(table)@.numbered() ==> final(table)@.numbered(),
            final(fleet).sound(),
            ready::<L>(final(fleet).held()),
            match entry_fault(key@, owner@) {
                Some(error) => {
                    &&& result == Err::<bool, Error>(error)
                    &&& final(table)@ == old(table)@
                    &&& final(fleet).held() == old(fleet).held()
                },
                None => is_release::<L>(
                    old(table)@,
                    final(table)@,
                    old(fleet).held(),
                    final(fleet).held(),
                    key@,
                    old(table)@.live(key@, now_ms) matches Some(current) && current.owner == owner@,
                    now_ms,
                    result,
                ),
            },
    {
        let ghost before = table@;
        let plan = table.prepare_release_owner(key, owner, now_ms);
        proof {
            lemma_same_live(before, table@, now_ms);
        }
        match plan {
            Err(error) => Err(error),
            Ok(None) => Ok(false),
            Ok(Some((place, released))) => {
                let ghost middle = table@;
                let ghost said = released@;
                let transition = LockTransition::Released {
                    lock_id: released.lock_id,
                    key: released.key.clone(),
                    owner: released.owner.clone(),
                    state_revision: released.state_revision,
                };
                match Self::publish(fleet, transition) {
                    Err(error) => Err(error),
                    Ok(_) => {
                        table.commit_release(place);
                        proof {
                            lemma_given_up(middle, place as int, said.key, now_ms);
                            lemma_chain_same_but(before, middle, table@, said.key, now_ms);
                        }
                        Ok(true)
                    },
                }
            },
        }
    }

    /// Releases the current tenure of a key, whoever its owner is.
    pub fn force_release<F: FleetRings>(
        &self,
        table: &mut LockTable,
        fleet: &mut F,
        key: &LockKey,
        now_ms: u64,
    ) -> (result: Result<bool, Error>)
        requires
            old(table).wf(),
            old(fleet).sound(),
            ready::<L>(old(fleet).held()),
        ensures
            final(table).wf(),
            old(table)@.numbered() ==> final(table)@.numbered(),
            final(fleet).sound(),
            ready::<L>(final(fleet).held()),
            match key_fault(key@) {
                Some(error) => {
                    &&& result == Err::<bool, Error>(error)
                    &&& final(table)@ == old(table)@
                    &&& final(fleet).held() == old(fleet).held()
                },
                None => is_release::<L>(
                    old(table)@,
                    final(table)@,
                    old(fleet).held(),
                    final(fleet).held(),
                    key@,
                    old(table)@.live(key@, now_ms) is Some,
                    now_ms,
                    result,
                ),
            },
    {
        let ghost before = table@;
        let plan = table.prepare_force_release(key, now_ms);
        proof {
            lemma_same_live(before, table@, now_ms);
        }
        match plan {
            Err(error) => Err(error),
            Ok(None) => Ok(false),
            Ok(Some((place, released))) => {
                let ghost middle = table@;
                let ghost said = released@;
                let transition = LockTransition::Released {
                    lock_id: released.lock_id,
                    key: released.key.clone(),
                    owner: released.owner.clone(),
                    state_revision: released.state_revision,
                };
                match Self::publish(fleet, transition) {
                    Err(error) => Err(error),
                    Ok(_) => {
                        table.commit_release(place);
                        proof {
                            lemma_given_up(middle, place as int, said.key, now_ms);
                            lemma_chain_same_but(before, middle, table@, said.key, now_ms);
                        }
                        Ok(true)
                    },
                }
            },
        }
    }

    /// The current tenure of a key.
    pub fn current(&self, table: &mut LockTable, key: &LockKey, now_ms: u64) -> (lease: Result<
        Option<LockLease>,
        Error,
    >)
        requires
            old(table).wf(),
        ensures
            final(table).wf(),
            old(table)@.numbered() ==> final(table)@.numbered(),
            same_live(old(table)@, final(table)@, now_ms),
            final(table)@.next_lock == old(table)@.next_lock,
            final(table)@.next_revision == old(table)@.next_revision,
            match key_fault(key@) {
                Some(error) => lease == Err::<Option<LockLease>, Error>(error),
                None => lease is Ok && lease_view(lease->Ok_0) == old(table)@.live(key@, now_ms),
            },
    {
        let ghost before = table@;
        let lease = table.current(key, now_ms);
        proof {
            lemma_same_live(before, table@, now_ms);
        }
        lease
    }

    /// The current tenure of a key, if this is its owner.
    pub fn restore(
        &self,
        table: &mut LockTable,
        key: &LockKey,
        owner: &LockOwner,
        now_ms: u64,
    ) -> (lease: Result<Option<LockLease>, Error>)
        requires
            old(table).wf(),
        ensures
            final(table).wf(),
            old(table)@.numbered() ==> final(table)@.numbered(),
            same_live(old(table)@, final(table)@, now_ms),
            final(table)@.next_lock == old(table)@.next_lock,
            final(table)@.next_revision == old(table)@.next_revision,
            match key_fault(key@) {
                Some(error) => lease == Err::<Option<LockLease>, Error>(error),
                None => lease is Ok && lease_view(lease->Ok_0) == (match old(table)@.live(
                    key@,
                    now_ms,
                ) {
                    Some(current) => if current.owner == owner@ {
                        Some(current)
                    } else {
                        None
                    },
                    None => None,
                }),
            },
    {
        match self.current(table, key, now_ms) {
            Err(error) => Err(error),
            Ok(None) => Ok(None),
            Ok(Some(lease)) => if same_bytes(lease.owner.as_bytes(), owner.as_bytes()) {
                Ok(Some(lease))
            } else {
                Ok(None)
            },
        }
    }

    /// Reads every visible transition of all lanes, in the order of the
    /// revisions. Frames that are no transitions are counted.
    pub fn poll<F: FleetRings>(&mut self, fleet: &F) -> (poll: LockPoll)
        requires
            fleet.sound(),
            ready::<L>(fleet.held()),
            old(self)@.fits(fleet.held().capacity),
        ensures
            ({
                let ring = fleet.held().ring::<LockEventRecord<L>>();
                let positions = old(self)@.begin(fleet.held().capacity);
                let frames = lanes_frames(ring, positions, positions.len());
                let events = decode_all(frames);
                &&& event_views(poll.events@) == by_revision(events)
                &&& poll.malformed == frames.len() - events.len()
                &&& poll.loss.overwritten == min_of(
                    lanes_overwritten(ring, positions, positions.len()),
                    u64::MAX as int,
                )
                &&& poll.loss.unavailable == min_of(
                    lanes_unavailable(ring, positions, positions.len()),
                    u64::MAX as int,
                )
                &&& final(self)@ == (LaneCursorView {
                    positions: lane_heads(ring),
                    initial: old(self)@.initial,
                })
            }),
            final(self)@.fits(fleet.held().capacity),
    {
        proof {
            lemma_event_record::<L>();
        }
        let raw = fleet.poll_lanes::<LockEventRecord<L>>(&mut self.cursor);
        let ghost frames = frame_views(raw.frames@);
        let mut events: Vec<LockEvent> = Vec::new();
        let mut malformed: u64 = 0;
        let mut index: usize = 0;
        assert(frames.subrange(0, 0) =~= Seq::<FrameView>::empty());
        assert(event_views(events@) =~= Seq::<EventView>::empty());
        while index < raw.frames.len()
            invariant
                index <= raw.frames@.len(),
                frames == frame_views(raw.frames@),
                event_views(events@) == decode_all(frames.subrange(0, index as int)),
                malformed == index - events@.len(),
            decreases raw.frames@.len() - index,
        {
            let ghost prefix = frames.subrange(0, index + 1);
            assert(prefix.drop_last() =~= frames.subrange(0, index as int));
            assert(prefix.last() == raw.frames@[index as int]@);
            let ghost before = events@;
            match decode(&raw.frames[index]) {
                Some(event) => {
                    events.push(event);
                    assert(event_views(events@) =~= event_views(before).push(event@));
                },
                None => {
                    malformed = malformed + 1;
                },
            }
            index = index + 1;
        }
        proof {
            assert(frames.subrange(0, frames.len() as int) =~= frames);
            assert(event_views(events@).len() == events@.len());
        }
        let sorted = sort_by_revision(events);
        LockPoll { events: sorted, loss: raw.loss, malformed }
    }

    /// Forgets every lock and clears the event ring.
    pub fn reset_transport<F: FleetRings>(&mut self, table: &mut LockTable, fleet: &mut F)
        requires
            old(table).wf(),
            old(fleet).sound(),
            ready::<L>(old(fleet).held()),
        ensures
            final(table).wf(),
            old(table)@.numbered() ==> final(table)@.numbered(),
            final(fleet).sound(),
            ready::<L>(final(fleet).held()),
            final(table)@ == TableView::blank(),
            final(fleet).held() == old(fleet).held().with_ring::<LockEventRecord<L>>(
                RingView::blank(
                    L::EVENT_RING_KIND,
                    declared::<LockEventRecord<L>>(),
                    old(fleet).held().capacity as nat,
                ),
            ),
            final(self)@ == (LaneCursorView {
                positions: lane_heads(final(fleet).held().ring::<LockEventRecord<L>>()),
                initial: 0,
            }),
    {
        proof {
            lemma_event_record::<L>();
        }
        table.reset();
        fleet.reset_ring::<LockEventRecord<L>>();
        self.cursor = fleet.lane_cursor_at_head::<LockEventRecord<L>>();
    }
}

proof fn lemma_chain_same_but(
    before: TableView,
    middle: TableView,
    after: TableView,
    key: KeyView,
    now_ms: u64,
)
    requires
        same_live(before, middle, now_ms),
        same_but(middle, after, key, now_ms),
    ensures
        same_but(before, after, key, now_ms),
{
    assert forall|other: KeyView, later: u64| other != key && now_ms <= later implies #[trigger] after.live(
        other,
        later,
    ) == before.live(other, later) by {
        assert(middle.live(other, later) == before.live(other, later));
    }
}

} // verus!
