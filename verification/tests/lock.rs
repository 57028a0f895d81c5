use bytes::Bytes;
use orbitive::fleet::{Fleet, NodeId};
use orbitive::lock::state::{LOCK_STATE_CAPACITY, LOCK_STATE_PAYLOAD_MAX};
use orbitive::lock::{
    deadline, Error, Lock, LockAcquire, LockKey, LockLayout, LockOwner, LockTable, LockTransition,
    LockType,
};
use orbitive::ring::RingTopology;

const SECOND: u128 = 1_000_000_000;
const NOW: u64 = 1_000_000;

struct PoolSlot;

impl LockType for PoolSlot {
    const NAMESPACE: &'static str = "test.pool-slot";
}

struct ScheduledOccurrence;

impl LockType for ScheduledOccurrence {
    const NAMESPACE: &'static str = "test.scheduled-occurrence";
}

fn key<T: LockType>(label: &'static [u8]) -> LockKey {
    LockKey::new::<T>(Bytes::from_static(label))
}

#[test]
fn only_key_determines_contention_and_owner_identifies_the_holder() {
    let mut fleet = Fleet::join("lock_owner", 2).expect("fleet");
    let mut table = LockTable::new();
    let first = Lock::new(&fleet).expect("first lock handle");
    let second = Lock::new(&fleet).expect("second lock handle");
    let slot = key::<PoolSlot>(b"queue:1");
    let owner_a = LockOwner::from_text("worker-a");
    let owner_b = LockOwner::from_text("worker-b");

    let LockAcquire::Acquired(lease) = first
        .try_acquire(&mut table, &mut fleet, &slot, &owner_a, 30 * SECOND, NOW)
        .expect("acquire")
    else {
        panic!("first owner must acquire");
    };
    let LockAcquire::Occupied(holder) = second
        .try_acquire(&mut table, &mut fleet, &slot, &owner_b, 30 * SECOND, NOW)
        .expect("contended acquire")
    else {
        panic!("second owner must observe contention");
    };

    assert_eq!(holder, lease);
    assert_eq!(holder.owner, owner_a);
}

#[test]
fn namespaces_keep_unrelated_domains_independent() {
    let mut fleet = Fleet::join("lock_namespace", 1).expect("fleet");
    let mut table = LockTable::new();
    let locks = Lock::new(&fleet).expect("locks");
    let owner = LockOwner::from_text("worker-a");

    assert!(matches!(
        locks
            .try_acquire(
                &mut table,
                &mut fleet,
                &key::<PoolSlot>(b"same-label"),
                &owner,
                30 * SECOND,
                NOW
            )
            .expect("pool lock"),
        LockAcquire::Acquired(_)
    ));
    assert!(matches!(
        locks
            .try_acquire(
                &mut table,
                &mut fleet,
                &key::<ScheduledOccurrence>(b"same-label"),
                &owner,
                30 * SECOND,
                NOW
            )
            .expect("occurrence lock"),
        LockAcquire::Acquired(_)
    ));
}

#[test]
fn release_requires_the_current_owner_or_exact_lease() {
    let mut fleet = Fleet::join("lock_release", 1).expect("fleet");
    let mut table = LockTable::new();
    let locks = Lock::new(&fleet).expect("locks");
    let slot = key::<PoolSlot>(b"queue:1");
    let owner = LockOwner::from_text("worker-a");
    let other = LockOwner::from_text("worker-b");
    let lease = locks
        .try_acquire(&mut table, &mut fleet, &slot, &owner, 30 * SECOND, NOW)
        .expect("acquire")
        .acquired()
        .expect("winner");

    assert!(!locks
        .release_owned(&mut table, &mut fleet, &slot, &other, NOW)
        .expect("wrong owner release"));
    assert_eq!(
        locks.current(&mut table, &slot, NOW).expect("current"),
        Some(lease.clone())
    );
    assert!(locks
        .release(&mut table, &mut fleet, &lease, NOW)
        .expect("exact release"));
    assert!(locks
        .current(&mut table, &slot, NOW)
        .expect("current after release")
        .is_none());
}

#[test]
fn force_release_is_an_explicit_ownerless_escape_hatch() {
    let mut fleet = Fleet::join("lock_force_release", 1).expect("fleet");
    let mut table = LockTable::new();
    let locks = Lock::new(&fleet).expect("locks");
    let slot = key::<PoolSlot>(b"queue:1");
    locks
        .try_acquire(
            &mut table,
            &mut fleet,
            &slot,
            &LockOwner::from_text("worker-a"),
            30 * SECOND,
            NOW,
        )
        .expect("acquire")
        .acquired()
        .expect("winner");

    assert!(locks
        .force_release(&mut table, &mut fleet, &slot, NOW)
        .expect("force release"));
    assert!(locks
        .current(&mut table, &slot, NOW)
        .expect("current")
        .is_none());
}

#[test]
fn stale_lease_cannot_release_a_successor() {
    let mut fleet = Fleet::join("lock_stale", 1).expect("fleet");
    let mut table = LockTable::new();
    let locks = Lock::new(&fleet).expect("locks");
    let slot = key::<PoolSlot>(b"queue:1");
    let first = locks
        .try_acquire(
            &mut table,
            &mut fleet,
            &slot,
            &LockOwner::from_text("worker-a"),
            SECOND / 1_000,
            NOW,
        )
        .expect("first acquire")
        .acquired()
        .expect("first winner");
    let later = NOW + 3;
    let second = locks
        .try_acquire(
            &mut table,
            &mut fleet,
            &slot,
            &LockOwner::from_text("worker-b"),
            30 * SECOND,
            later,
        )
        .expect("second acquire")
        .acquired()
        .expect("second winner");

    assert!(second.fencing_token().get() > first.fencing_token().get());
    assert!(!locks
        .release(&mut table, &mut fleet, &first, later)
        .expect("stale release"));
    assert_eq!(
        locks.current(&mut table, &slot, later).expect("current"),
        Some(second)
    );
}

#[test]
fn restore_and_renew_use_the_caller_owner() {
    let mut fleet = Fleet::join("lock_restore", 1).expect("fleet");
    let mut table = LockTable::new();
    let locks = Lock::new(&fleet).expect("locks");
    let slot = key::<PoolSlot>(b"queue:1");
    let owner = LockOwner::from_text("portable-owner-token");
    let lease = locks
        .try_acquire(&mut table, &mut fleet, &slot, &owner, SECOND, NOW)
        .expect("acquire")
        .acquired()
        .expect("winner");

    assert_eq!(
        locks
            .restore(&mut table, &slot, &owner, NOW)
            .expect("restore"),
        Some(lease.clone())
    );
    assert!(locks
        .restore(&mut table, &slot, &LockOwner::from_text("other"), NOW)
        .expect("wrong restore")
        .is_none());
    let renewed = locks
        .renew_owned(&mut table, &mut fleet, &slot, &owner, 2 * SECOND, NOW)
        .expect("renew")
        .expect("current owner renews");
    assert_eq!(renewed.lock_id, lease.lock_id);
    assert!(renewed.expires_at_ms >= lease.expires_at_ms);
    assert!(renewed.state_revision > lease.state_revision);
}

#[test]
fn transitions_are_published_in_state_revision_order() {
    let mut fleet = Fleet::join("lock_events", 1).expect("fleet");
    let mut table = LockTable::new();
    let actor = Lock::new(&fleet).expect("actor");
    let mut observer = Lock::new(&fleet).expect("observer");
    let slot = key::<PoolSlot>(b"queue:1");
    let owner = LockOwner::from_text("worker-a");
    let lease = actor
        .try_acquire(&mut table, &mut fleet, &slot, &owner, 30 * SECOND, NOW)
        .expect("acquire")
        .acquired()
        .expect("winner");
    let renewed = actor
        .renew(&mut table, &mut fleet, &lease, 60 * SECOND, NOW)
        .expect("renew")
        .expect("renewed");
    assert!(actor
        .release(&mut table, &mut fleet, &renewed, NOW)
        .expect("release"));

    let poll = observer.poll(&fleet);
    assert_eq!(poll.events.len(), 3);
    assert!(matches!(
        poll.events[0].transition,
        LockTransition::Acquired(_)
    ));
    assert!(matches!(
        poll.events[1].transition,
        LockTransition::Renewed(_)
    ));
    assert!(matches!(
        poll.events[2].transition,
        LockTransition::Released { .. }
    ));
    assert!(poll.events.windows(2).all(
        |events| events[0].transition.state_revision() < events[1].transition.state_revision()
    ));
    assert!(observer.poll(&fleet).is_empty());
}

struct TinyLayout;

impl LockLayout for TinyLayout {
    const STATE_KIND: u8 = 60;
    const EVENT_RING_KIND: u8 = 61;
    const EVENT_RING_CAPACITY: usize = 2;
    const EVENT_RING_PAYLOAD_CAPACITY: usize = 128;
    const EVENT_RING_TOPOLOGY: RingTopology = RingTopology::PerNode;
}

#[test]
fn event_ring_wrap_does_not_erase_current_lock_state() {
    let mut fleet = Fleet::join("lock_wrap", 1).expect("fleet");
    let mut table = LockTable::new();
    let locks = Lock::<TinyLayout>::with_layout(&fleet).expect("locks");
    let retained = LockKey::from_parts(
        Bytes::from_static(b"test.wrap"),
        Bytes::from_static(b"retained"),
    );
    let retained_owner = LockOwner::from_text("owner");
    let retained_lease = locks
        .try_acquire(
            &mut table,
            &mut fleet,
            &retained,
            &retained_owner,
            30 * SECOND,
            NOW,
        )
        .expect("retained acquire")
        .acquired()
        .expect("retained winner");

    for index in 0..4 {
        let key = LockKey::from_parts(
            Bytes::from_static(b"test.wrap"),
            Bytes::from(format!("other-{index}")),
        );
        let lease = locks
            .try_acquire(
                &mut table,
                &mut fleet,
                &key,
                &retained_owner,
                30 * SECOND,
                NOW,
            )
            .expect("other acquire")
            .acquired()
            .expect("other winner");
        assert!(locks
            .release(&mut table, &mut fleet, &lease, NOW)
            .expect("other release"));
    }

    assert_eq!(
        locks.current(&mut table, &retained, NOW).expect("current"),
        Some(retained_lease)
    );
}

#[test]
fn many_contenders_produce_one_winner() {
    let mut fleet = Fleet::join("lock_threads", 1).expect("fleet");
    let mut table = LockTable::new();
    let locks = Lock::new(&fleet).expect("locks");
    let slot = key::<PoolSlot>(b"queue:1");
    let mut winners = 0;
    for index in 0..8 {
        let owner = LockOwner::from_text(&format!("worker-{index}"));
        let acquired = locks
            .try_acquire(&mut table, &mut fleet, &slot, &owner, 30 * SECOND, NOW)
            .expect("acquire");
        if matches!(acquired, LockAcquire::Acquired(_)) {
            winners += 1;
        }
    }
    assert_eq!(winners, 1);
}

#[test]
fn tenures_end() {
    let mut fleet = Fleet::join("lock_tenure", 1).expect("fleet");
    let mut table = LockTable::new();
    let locks = Lock::new(&fleet).expect("locks");
    let slot = key::<PoolSlot>(b"queue:1");
    let owner = LockOwner::from_text("a");
    let lease = locks
        .try_acquire(&mut table, &mut fleet, &slot, &owner, SECOND, NOW)
        .unwrap()
        .acquired()
        .unwrap();
    assert_eq!(lease.expires_at_ms, NOW + 1_000);
    assert!(!lease.is_expired_at(NOW + 999));
    assert!(lease.is_expired_at(NOW + 1_000));
    assert!(locks
        .current(&mut table, &slot, NOW + 999)
        .unwrap()
        .is_some());
    assert!(locks
        .current(&mut table, &slot, NOW + 1_000)
        .unwrap()
        .is_none());
    assert!(locks
        .renew(&mut table, &mut fleet, &lease, SECOND, NOW + 1_000)
        .unwrap()
        .is_none());
}

#[test]
fn deadlines_are_checked() {
    assert_eq!(deadline(5, 0), Err(Error::TtlZero));
    assert_eq!(deadline(5, 1), Ok(6));
    assert_eq!(deadline(5, 2_999_999), Ok(7));
    assert_eq!(deadline(u64::MAX, 1), Err(Error::TtlOverflow));
    assert_eq!(deadline(0, u128::MAX), Err(Error::TtlOverflow));
}

#[test]
fn entries_are_checked() {
    let mut fleet = Fleet::join("lock_entries", 1).expect("fleet");
    let mut table = LockTable::new();
    let locks = Lock::new(&fleet).expect("locks");
    let owner = LockOwner::from_text("a");
    let mut refused = |key: &LockKey, owner: &LockOwner| {
        locks
            .try_acquire(&mut table, &mut fleet, key, owner, SECOND, NOW)
            .expect_err("must be refused")
    };
    let parts = |namespace: &'static [u8], label: &'static [u8]| {
        LockKey::from_parts(Bytes::from_static(namespace), Bytes::from_static(label))
    };
    assert_eq!(refused(&parts(b"", b"l"), &owner), Error::NamespaceEmpty);
    assert_eq!(refused(&parts(b"n", b""), &owner), Error::KeyEmpty);
    assert_eq!(
        refused(&parts(b"n", b"l"), &LockOwner::from_text("")),
        Error::OwnerEmpty
    );
    let long = LockOwner::new(Bytes::from(vec![b'o'; LOCK_STATE_PAYLOAD_MAX]));
    assert_eq!(
        refused(&parts(b"n", b"l"), &long),
        Error::EntryTooLarge {
            namespace_len: 1,
            key_len: 1,
            owner_len: LOCK_STATE_PAYLOAD_MAX,
            max_payload: LOCK_STATE_PAYLOAD_MAX
        }
    );
}

#[test]
fn a_full_table_is_refused_until_a_tenure_ends() {
    let mut fleet = Fleet::join("lock_full", 1).expect("fleet");
    let mut table = LockTable::new();
    let locks = Lock::new(&fleet).expect("locks");
    let owner = LockOwner::from_text("a");
    let numbered = |n: usize| {
        LockKey::from_parts(Bytes::from_static(b"n"), Bytes::from(format!("key-{n}")))
    };
    for n in 0..LOCK_STATE_CAPACITY {
        let ttl = if n == 9 { SECOND } else { 60 * SECOND };
        locks
            .try_acquire(&mut table, &mut fleet, &numbered(n), &owner, ttl, NOW)
            .expect("room");
    }
    let another = numbered(LOCK_STATE_CAPACITY);
    assert_eq!(
        locks
            .try_acquire(&mut table, &mut fleet, &another, &owner, SECOND, NOW)
            .expect_err("full"),
        Error::StateFull {
            capacity: LOCK_STATE_CAPACITY
        }
    );
    assert!(locks
        .try_acquire(&mut table, &mut fleet, &another, &owner, SECOND, NOW + 1_000)
        .is_ok());
}

#[test]
fn a_reset_forgets_every_lock() {
    let mut fleet = Fleet::join_as("lock_reset", 2, NodeId::new(1)).expect("fleet");
    let mut table = LockTable::new();
    let mut locks = Lock::replay_retained(&fleet).expect("locks");
    let slot = key::<PoolSlot>(b"queue:1");
    let owner = LockOwner::from_text("a");
    let lease = locks
        .try_acquire(&mut table, &mut fleet, &slot, &owner, SECOND, NOW)
        .unwrap()
        .acquired()
        .unwrap();
    assert_eq!(lease.lock_id.node(), 1);
    assert_eq!(locks.poll(&fleet).events.len(), 1);
    locks.reset_transport(&mut table, &mut fleet);
    assert!(locks.current(&mut table, &slot, NOW).unwrap().is_none());
    assert!(locks.poll(&fleet).is_empty());
}

struct SameKinds;

impl LockLayout for SameKinds {
    const STATE_KIND: u8 = 60;
    const EVENT_RING_KIND: u8 = 60;
    const EVENT_RING_CAPACITY: usize = 2;
    const EVENT_RING_PAYLOAD_CAPACITY: usize = 128;
    const EVENT_RING_TOPOLOGY: RingTopology = RingTopology::PerNode;
}

#[test]
fn unusable_lock_layouts_are_refused() {
    let fleet = Fleet::join("lock_layout", 1).expect("fleet");
    let error = Lock::<SameKinds>::with_layout(&fleet).err().expect("refused");
    assert_eq!(
        error.to_string(),
        "invalid lock layout: state and event-ring kinds must differ"
    );
}

#[test]
fn lock_errors_are_told_in_words() {
    let told = [
        (Error::NamespaceEmpty, "lock namespace must not be empty"),
        (Error::KeyEmpty, "lock key must not be empty"),
        (Error::OwnerEmpty, "lock owner must not be empty"),
        (
            Error::EntryTooLarge {
                namespace_len: 1,
                key_len: 2,
                owner_len: 3,
                max_payload: 4,
            },
            "lock entry is too large: namespace_len=1 key_len=2 owner_len=3 max_payload=4",
        ),
        (
            Error::StateFull { capacity: 256 },
            "lock state table is full: capacity=256",
        ),
        (Error::IdExhausted, "lock id counter is exhausted"),
        (Error::TtlZero, "lock TTL must be greater than zero"),
        (Error::TtlOverflow, "lock TTL deadline overflowed"),
    ];
    for (error, words) in told {
        assert_eq!(error.to_string(), words);
    }
}

struct OddCapacity;

impl LockLayout for OddCapacity {
    const STATE_KIND: u8 = 62;
    const EVENT_RING_KIND: u8 = 63;
    const EVENT_RING_CAPACITY: usize = 3;
    const EVENT_RING_PAYLOAD_CAPACITY: usize = 128;
    const EVENT_RING_TOPOLOGY: RingTopology = RingTopology::PerNode;
}

#[test]
fn a_domain_with_its_own_layout_replays_what_is_retained() {
    let mut fleet = Fleet::join("lock_replay", 1).expect("fleet");
    let mut table = LockTable::new();
    let locks = Lock::<TinyLayout>::with_layout(&fleet).expect("locks");
    let slot = key::<PoolSlot>(b"queue:1");
    let owner = LockOwner::new(Bytes::from_static(b"worker"));
    locks
        .try_acquire(&mut table, &mut fleet, &slot, &owner, SECOND, NOW)
        .expect("acquire");

    let mut replayed = Lock::<TinyLayout>::replay_layout(&fleet).expect("locks");
    assert_eq!(replayed.poll(&fleet).events.len(), 1);
    let mut late = Lock::<TinyLayout>::with_layout(&fleet).expect("locks");
    assert!(late.poll(&fleet).is_empty());

    let error = Lock::<OddCapacity>::replay_layout(&fleet)
        .err()
        .expect("refused");
    assert_eq!(
        error.to_string(),
        "invalid lock layout: event-ring capacity must be a non-zero power of two"
    );
}

#[test]
fn a_new_tenure_outnumbers_every_lease_handed_out_before() {
    let mut fleet = Fleet::join("lock_tokens", 1).expect("fleet");
    let mut table = LockTable::new();
    let locks = Lock::new(&fleet).expect("locks");
    let owner = LockOwner::new(Bytes::from_static(b"worker"));
    let mut highest = 0;
    for (round, label) in [b"queue:1", b"queue:2", b"queue:1", b"queue:1"]
        .into_iter()
        .enumerate()
    {
        let slot = key::<PoolSlot>(label);
        let LockAcquire::Acquired(lease) = locks
            .try_acquire(&mut table, &mut fleet, &slot, &owner, SECOND, NOW)
            .expect("acquire")
        else {
            panic!("free");
        };
        assert!(lease.fencing_token().get() > highest, "round {round}");
        highest = lease.fencing_token().get();
        let renewed = locks
            .renew(&mut table, &mut fleet, &lease, SECOND, NOW)
            .expect("renew")
            .expect("held");
        assert_eq!(renewed.fencing_token(), lease.fencing_token());
        assert_eq!(
            locks.release(&mut table, &mut fleet, &lease, NOW),
            Ok(true)
        );
    }
}
