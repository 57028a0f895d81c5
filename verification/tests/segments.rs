use bytes::Bytes;
use orbitive::arena::image::{ArenaFault, RING_OFFSET, SEGMENT_SIZE};
use orbitive::arena::{segment_size, Arena, Key, Record};
use orbitive::cell::{CellId, Cells, Error as CellError, CELL_CAPACITY};
use orbitive::counter::{Counter, Error as CounterError};
use orbitive::fleet::{Fleet, NodeId};
use orbitive::lock::{Error as LockError, Lock, LockKey, LockOwner, LockTable};
use orbitive::ring::cursor::{poll_ring, RingCursor};
use orbitive::ring::shm::layout::{ShmError, ShmErrorKind};
use orbitive::ring::shm::observer::ObservedRing;
use orbitive::ring::shm::ShmRing;
use orbitive::ring::{RingSpec, RingTopology};
use orbitive::table::{HeaderFault, SegmentFault};
use orbitive::OrbitTyped;

#[test]
fn a_second_mapping_reads_what_the_first_wrote() {
    let mut owner = Arena::new();
    owner.reset();

    let key = Key::new(0xC0FFEE);
    owner
        .put(
            key,
            Record::body(b"identity")
                .encoded(b"encoded", 7)
                .stamp(9)
                .extra(8),
        )
        .expect("put");

    let mut peer = Arena::open_segment(&owner.segment()).expect("peer arena");
    let entry = peer.get(key).expect("the peer sees the record");
    assert_eq!(entry.body(&peer), b"identity");
    assert_eq!(entry.encoded(&peer), Some((&b"encoded"[..], 7)));
    assert_eq!((entry.stamp(), entry.extra()), (9, 8));

    // Held by the peer, the record survives the owner's reset and put.
    let mut owner = Arena::open_segment(&peer.segment()).expect("owner arena");
    assert_eq!(owner.reset(), 1);
    owner
        .put(Key::new(1), Record::body(b"after"))
        .expect("put after reset");
    let mut peer = Arena::open_segment(&owner.segment()).expect("peer arena");
    assert_eq!(entry.body(&peer), b"identity");
    peer.release(entry);
    assert!(peer.get(key).is_none());
    let fresh = peer.get(Key::new(1)).expect("new record");
    assert_eq!(fresh.body(&peer), b"after");
}

#[test]
fn foreign_arenas_are_refused() {
    let arena = Arena::new();
    let segment = arena.segment();
    assert_eq!(segment.len(), SEGMENT_SIZE);
    assert_eq!(segment.len(), segment_size());
    assert_eq!(
        Arena::open_segment(&segment[..SEGMENT_SIZE - 1]).err(),
        Some(ArenaFault::TooSmall {
            actual: SEGMENT_SIZE - 1,
            requested: SEGMENT_SIZE
        })
    );
    let mut other = segment;
    other[4] = 2;
    assert_eq!(
        Arena::open_segment(&other).err(),
        Some(ArenaFault::Incompatible)
    );
    assert_eq!(RING_OFFSET, 64 + 4_096 * 128);
}

/// The bytes of a slot of the arena's index.
fn arena_slot(segment: &[u8], slot: usize) -> &[u8] {
    &segment[64 + 128 * slot..64 + 128 * (slot + 1)]
}

#[test]
fn an_arena_slot_is_laid_out_in_two_cache_lines() {
    let mut arena = Arena::new();
    let key = Key::new(3 + (9_u128 << 64));
    arena
        .put(key, Record::body(b"body").encoded(b"enc", 7).stamp(5).extra(6))
        .expect("put");
    arena
        .put(Key::new(4), Record::body(b"x").encoded(b"", 2))
        .expect("put");
    let held = arena.get(key).expect("held");
    assert_eq!(held.generation(), 1);

    let segment = arena.segment();
    assert_eq!(segment[24..32], 8_u64.to_le_bytes());
    assert_eq!(segment[32..36], 1_u32.to_le_bytes());
    assert!(segment[36..64].iter().all(|byte| *byte == 0));
    let slot = arena_slot(&segment, 3);
    assert_eq!(slot[..4], [1, 7, 0, 0]);
    assert_eq!(slot[4..8], 1_u32.to_le_bytes());
    assert_eq!(slot[8..16], 1_u64.to_le_bytes());
    let words: Vec<u64> = slot[16..80]
        .chunks(8)
        .map(|word| u64::from_le_bytes(word.try_into().unwrap()))
        .collect();
    assert_eq!(words, [3, 9, 0, 4, 4, 3, 5, 6]);
    assert!(slot[80..].iter().all(|byte| *byte == 0));
    // An encoded body without bytes begins at no place of the ring.
    let slot = arena_slot(&segment, 4);
    assert_eq!(slot[..4], [1, 2, 0, 0]);
    assert_eq!(slot[8..12], 2_u32.to_le_bytes());
    assert_eq!(slot[48..56], u64::MAX.to_le_bytes());
    assert_eq!(&segment[RING_OFFSET..RING_OFFSET + 8], b"bodyencx");
}

#[test]
fn arena_slots_that_no_lookup_finds_are_passed_over() {
    let blank = Arena::new().segment();
    // A state that no arena writes.
    let mut odd = blank.clone();
    odd[64 + 128 * 3] = 9;
    let mut arena = Arena::open_segment(&odd).expect("open");
    assert!(arena.get(Key::new(3)).is_none());
    arena.put(Key::new(3), Record::body(b"three")).expect("put");
    let entry = arena.get(Key::new(3)).expect("found");
    assert_eq!(entry.body(&arena), b"three");

    // A live slot behind an unused one on its key's way, which a reader holds.
    let mut behind = blank.clone();
    behind[64 + 128 * 5] = 1;
    behind[64 + 128 * 5 + 4] = 1;
    behind[64 + 128 * 5 + 40] = 4;
    behind[RING_OFFSET..RING_OFFSET + 4].copy_from_slice(b"held");
    let mut arena = Arena::open_segment(&behind).expect("open");
    assert!(arena.get(Key::new(0)).is_none());
    arena.put(Key::new(0), Record::body(b"new")).expect("put");
    let entry = arena.get(Key::new(0)).expect("found");
    assert_eq!(entry.body(&arena), b"new");
    assert_eq!(
        &arena.segment()[RING_OFFSET..RING_OFFSET + 7],
        b"heldnew",
        "the held bytes are not written"
    );

    // A record that does not lie inside the ring.
    let mut outside = blank;
    outside[64] = 1;
    outside[64 + 40..64 + 48].fill(0xFF);
    let mut arena = Arena::open_segment(&outside).expect("open");
    assert!(arena.get(Key::new(0)).is_none());
    assert!(arena.is_empty());
    arena.put(Key::new(0), Record::body(b"zero")).expect("put");
    assert!(arena.get(Key::new(0)).is_some());
}

#[test]
fn generations_go_on_from_what_a_segment_has() {
    let mut arena = Arena::new();
    arena.put(Key::new(1), Record::body(b"one")).expect("put");
    let mut segment = arena.segment();
    segment[64 + 128 + 8..64 + 128 + 12].copy_from_slice(&41_u32.to_le_bytes());
    let mut peer = Arena::open_segment(&segment).expect("open");
    assert_eq!(peer.get(Key::new(1)).expect("one").generation(), 41);
    peer.put(Key::new(2), Record::body(b"two")).expect("put");
    assert_eq!(peer.get(Key::new(2)).expect("two").generation(), 42);

    // Behind the highest one comes the lowest that no slot has.
    let mut last = segment.clone();
    last[64 + 128 + 8..64 + 128 + 12].fill(0xFF);
    last[64 + 128 * 9 + 8] = 1;
    let mut peer = Arena::open_segment(&last).expect("open");
    peer.put(Key::new(1), Record::body(b"again")).expect("put");
    let again = peer.get(Key::new(1)).expect("again");
    assert_eq!(again.generation(), 2);
    assert_eq!(again.body(&peer), b"again");
}

#[test]
fn an_arena_says_when_its_numbers_end() {
    let mut arena = Arena::new();
    assert!(arena.can_put());
    assert!(arena.can_get(Key::new(1)));
    arena.put(Key::new(1), Record::body(b"one")).expect("put");
    let segment = arena.segment();
    let mut far = segment.clone();
    far[24..32].fill(0xFF);
    assert!(!Arena::open_segment(&far).expect("open").can_put());
    let mut crowded = segment;
    crowded[64 + 128 + 4..64 + 128 + 8].fill(0xFF);
    let arena = Arena::open_segment(&crowded).expect("open");
    assert!(!arena.can_get(Key::new(1)));
    assert!(arena.can_get(Key::new(2)));
    assert!(arena.can_put());
}

#[test]
fn a_second_mapping_reaches_the_same_cell_by_id() {
    let mut owner = Cells::new();
    owner.reset_all();

    let counter = owner.allocate(40_i64).expect("allocate");
    let id = counter.id().to_string();

    let mut peer = Cells::open_segments(Some(owner.segment()), Some(owner.text_segment()))
        .expect("peer cells");
    let same = peer
        .open::<i64>(CellId::from_str(&id).expect("id"))
        .expect("open");
    assert_eq!(same.fetch_add(&mut peer, 2).expect("add"), 42);
    let mut owner = Cells::open_segments(Some(peer.segment()), Some(peer.text_segment()))
        .expect("owner cells");
    assert_eq!(counter.load(&owner).expect("load"), 42);

    counter.release(&mut owner).expect("release");
    let peer = Cells::open_segments(Some(owner.segment()), Some(owner.text_segment()))
        .expect("peer cells");
    assert!(matches!(same.load(&peer), Err(CellError::Stale(_))));

    let text = owner.allocate_text("shared ").expect("allocate text");
    let mut peer = Cells::open_segments(Some(owner.segment()), Some(owner.text_segment()))
        .expect("peer cells");
    let peer_text = peer.open_text(text.id()).expect("open text");
    peer_text.append(&mut peer, "memory").expect("append");
    let owner = Cells::open_segments(Some(peer.segment()), Some(peer.text_segment()))
        .expect("owner cells");
    assert_eq!(text.load(&owner).expect("load"), "shared memory");
}

#[test]
fn foreign_cell_tables_are_refused() {
    let cells = Cells::new();
    let scalar = cells.segment();
    let text = cells.text_segment();
    assert!(Cells::open_segments(None, None).is_ok());
    assert_eq!(
        Cells::open_segments(Some(text.clone()), None).err(),
        Some(SegmentFault::Header(HeaderFault::WrongMagic {
            found: 0x4354_5854,
            expected: 0x4345_4C4C
        }))
    );
    assert_eq!(
        Cells::open_segments(None, Some(text[..100].to_vec())).err(),
        Some(SegmentFault::TooSmall {
            actual: 100,
            requested: 64 + 1_024 * 256
        })
    );
    assert_eq!(
        Cells::open_segments(None, Some(scalar)).err(),
        Some(SegmentFault::Header(HeaderFault::WrongMagic {
            found: 0x4345_4C4C,
            expected: 0x4354_5854
        }))
    );
}

#[test]
fn a_cell_slot_of_another_state_is_neither_live_nor_free() {
    let mut segment = Cells::new().segment();
    segment[64 + 64 * 9] = 5;
    segment[64 + 64 * 9 + 4] = 1;
    let mut cells = Cells::open_segments(Some(segment), None).expect("open");
    assert!(!cells.is_live(CellId {
        index: 9,
        generation: 1
    }));
    for n in 0..CELL_CAPACITY - 1 {
        let cell = cells.allocate(n as u64).expect("allocate");
        assert_ne!(cell.id().index(), 9);
    }
    assert_eq!(
        cells.allocate(0_u64).err(),
        Some(CellError::Full {
            capacity: CELL_CAPACITY
        })
    );
    assert_eq!(cells.segment()[64 + 64 * 9], 5);
}

#[test]
fn one_broken_text_spares_the_others() {
    let mut cells = Cells::new();
    let broken = cells.allocate_text("broken").expect("allocate");
    let torn = cells.allocate_text("torn").expect("allocate");
    let whole = cells.allocate_text("whole").expect("allocate");
    let mut segment = cells.text_segment();
    let at = |id: orbitive::cell::TextId| 64 + 256 * id.index() as usize;
    segment[at(broken.id()) + 16] = 0xFF;
    segment[at(torn.id()) + 1] = 1;
    segment[at(torn.id()) + 8] = 1;

    let mut peer = Cells::open_segments(None, Some(segment.clone())).expect("open");
    assert!(broken.is_readable(&peer) && broken.is_writable(&peer));
    assert_eq!(
        broken.load(&peer),
        Err(CellError::Corrupt(broken.id().to_string()))
    );
    assert_eq!(broken.len(&peer), Ok(6));
    assert!(!torn.is_readable(&peer));
    assert!(!torn.is_writable(&peer));
    assert_eq!(torn.len(&peer), Ok(4));
    assert_eq!(whole.load(&peer), Ok("whole".to_owned()));
    assert_eq!(peer.text_segment(), segment);

    // A write of the whole text mends it.
    broken.store(&mut peer, "mended").expect("store");
    assert_eq!(broken.load(&peer), Ok("mended".to_owned()));

    // A length beyond the room is told as it is, and the text is what there is room for.
    segment[at(whole.id()) + 3] = 1;
    let mut peer = Cells::open_segments(None, Some(segment)).expect("open");
    assert_eq!(whole.len(&peer), Ok(256 + 5));
    assert_eq!(whole.load(&peer).map(|text| text.len()), Ok(240));
    assert_eq!(
        whole.append(&mut peer, "!"),
        Err(CellError::TooLong { len: 262, max: 240 })
    );
}

#[test]
fn counters_survive_the_segment() {
    let mut counter = Counter::new();
    for n in 0..300_i64 {
        counter.increment(&format!("key-{n}"), n).expect("increment");
    }
    counter.decrement("key-7", 20).expect("decrement");
    let segment = counter.segment();
    assert_eq!(segment.len(), 64 + 1_024 * 320);
    let mut peer = Counter::open_segment(&segment).expect("peer");
    assert_eq!(peer.get("key-7"), Ok(Some(-13)));
    assert_eq!(peer.get("key-299"), Ok(Some(299)));
    assert_eq!(peer.get("key-300"), Ok(None));
    peer.increment("key-300", 1).expect("increment");
    let owner = Counter::open_segment(&peer.segment()).expect("owner");
    assert_eq!(owner.get("key-300"), Ok(Some(1)));

    assert_eq!(
        Counter::open_segment(&segment[1..]).err(),
        Some(SegmentFault::TooSmall {
            actual: segment.len() - 1,
            requested: segment.len()
        })
    );
}

#[test]
fn counter_slots_at_which_no_search_ends_are_passed_over() {
    let mut counter = Counter::new();
    counter.increment("kept", 4).expect("increment");
    counter.increment("lost", 5).expect("increment");
    let mut segment = counter.segment();
    let slot = segment[64..]
        .chunks(320)
        .position(|slot| &slot[32..36] == b"lost")
        .expect("its slot");
    // The key is no longer the one that the hash is of.
    segment[64 + slot * 320 + 32] ^= 1;
    let mut peer = Counter::open_segment(&segment).expect("open");
    assert_eq!(peer.segment(), segment);
    assert_eq!(peer.get("kept"), Ok(Some(4)));
    assert_eq!(peer.get("lost"), Ok(None));
    assert_eq!(peer.increment("lost", 1), Ok(1));
    for n in 0..1_021 {
        peer.increment(&format!("key-{n}"), n).expect("room");
    }
    assert_eq!(
        peer.increment("over", 1),
        Err(CounterError::StateFull { capacity: 1_024 })
    );
    assert_eq!(peer.increment("lost", 1), Ok(2));
    assert_eq!(
        peer.segment()[64 + slot * 320..64 + (slot + 1) * 320],
        segment[64 + slot * 320..64 + (slot + 1) * 320]
    );
    peer.reset_all();
    assert_eq!(peer.segment(), Counter::new().segment());
}

#[test]
fn a_counter_behind_an_empty_slot_is_not_found() {
    let mut counter = Counter::new();
    counter.increment("here", 3).expect("increment");
    let segment = counter.segment();
    let slot = segment[64..]
        .chunks(320)
        .position(|slot| slot[0] == 1)
        .expect("its slot");
    let next = (slot + 1) % 1_024;
    let mut moved = segment.clone();
    let bytes = segment[64 + slot * 320..64 + (slot + 1) * 320].to_vec();
    moved[64 + next * 320..64 + (next + 1) * 320].copy_from_slice(&bytes);
    // The same key twice: the first one counts.
    let mut twice = Counter::open_segment(&moved).expect("open");
    assert_eq!(twice.increment("here", 1), Ok(4));
    moved[64 + slot * 320..64 + (slot + 1) * 320].fill(0);
    let mut peer = Counter::open_segment(&moved).expect("open");
    assert_eq!(peer.get("here"), Ok(None));
    assert_eq!(peer.increment("here", 8), Ok(8));
}

#[test]
fn locks_survive_the_segment() {
    let mut fleet = Fleet::join("lock_segment", 2).expect("fleet");
    let mut table = LockTable::new();
    let locks = Lock::new(&fleet).expect("locks");
    let owner = LockOwner::from_text("worker-a");
    let key = |n: usize| {
        LockKey::from_parts(Bytes::from_static(b"n"), Bytes::from(format!("key-{n}")))
    };
    let mut leases = Vec::new();
    for n in 0..50 {
        leases.push(
            locks
                .try_acquire(&mut table, &mut fleet, &key(n), &owner, 1_000_000_000, 100)
                .expect("acquire")
                .acquired()
                .expect("winner"),
        );
    }
    locks
        .release(&mut table, &mut fleet, &leases[3], 100)
        .expect("release");
    let segment = table.segment();
    assert_eq!(segment.len(), 64 + 256 * 1_024);
    let mut peer = LockTable::open_segment(&segment).expect("peer");
    assert_eq!(
        locks.current(&mut peer, &key(4), 100).expect("current"),
        Some(leases[4].clone())
    );
    assert_eq!(locks.current(&mut peer, &key(3), 100).expect("free"), None);
    // The next tenure has the next number.
    let next = locks
        .try_acquire(&mut peer, &mut fleet, &key(3), &owner, 1_000_000_000, 100)
        .expect("acquire")
        .acquired()
        .expect("winner");
    assert_eq!(
        next.fencing_token().get(),
        leases[49].fencing_token().get() + 1
    );
    // Numbers go on from where the segment says they are.
    let mut forged = segment.clone();
    forged[16..24].copy_from_slice(&6_u64.to_le_bytes());
    let mut peer = LockTable::open_segment(&forged).expect("peer");
    let seventh = locks
        .try_acquire(&mut peer, &mut fleet, &key(3), &owner, 1_000_000_000, 100)
        .expect("acquire")
        .acquired()
        .expect("winner");
    assert_eq!(seventh.fencing_token().get(), 7);
    forged[16..24].fill(0xFF);
    let mut peer = LockTable::open_segment(&forged).expect("peer");
    assert_eq!(
        locks
            .try_acquire(&mut peer, &mut fleet, &key(3), &owner, 1_000_000_000, 100)
            .err(),
        Some(LockError::IdExhausted)
    );
}

#[test]
fn lock_slots_at_which_no_search_ends_are_passed_over() {
    let mut fleet = Fleet::join("lock_foreign", 2).expect("fleet");
    let mut table = LockTable::new();
    let locks = Lock::new(&fleet).expect("locks");
    let owner = LockOwner::from_text("worker-a");
    let key = |text: &'static str| {
        LockKey::from_parts(Bytes::from_static(b"n"), Bytes::from_static(text.as_bytes()))
    };
    locks
        .try_acquire(&mut table, &mut fleet, &key("lost"), &owner, 1_000, 100)
        .expect("acquire");
    locks
        .try_acquire(&mut table, &mut fleet, &key("kept"), &owner, 1_000, 100)
        .expect("acquire");
    let mut segment = table.segment();
    let slot = segment[64..]
        .chunks(1_024)
        .position(|slot| &slot[48..53] == b"nlost")
        .expect("its slot");
    let range = 64 + slot * 1_024..64 + (slot + 1) * 1_024;
    segment[range.start + 50] ^= 1;
    let mut peer = LockTable::open_segment(&segment).expect("open");
    assert_eq!(peer.segment(), segment);
    assert_eq!(locks.current(&mut peer, &key("lost"), 100), Ok(None));
    assert!(locks
        .current(&mut peer, &key("kept"), 100)
        .expect("current")
        .is_some());
    // While it is not over, the slot is passed over.
    assert!(locks
        .try_acquire(&mut peer, &mut fleet, &key("lost"), &owner, 1_000, 100)
        .expect("acquire")
        .acquired()
        .is_some());
    assert_eq!(peer.segment()[range.clone()], segment[range.clone()]);
    // Once it is over, an attempt on the same way takes it.
    let mut later = LockTable::open_segment(&segment).expect("open");
    assert!(locks
        .try_acquire(&mut later, &mut fleet, &key("lost"), &owner, 1_000, 5_000)
        .expect("acquire")
        .acquired()
        .is_some());
    assert_eq!(&later.segment()[range.start + 48..range.start + 53], b"nlost");
}

#[test]
fn observer_reads_persisted_geometry_and_each_lane() {
    let kind = 247;
    let spec = RingSpec::per_node(4, 16);
    let mut ring = ShmRing::open_or_create_for_fleet(kind, spec, 2, None).expect("create ring");
    let first = ring
        .write(NodeId::new(0), 11, 101, Bytes::from_static(b"first"))
        .expect("write lane zero");
    let second = ring
        .write(NodeId::new(1), 12, 102, Bytes::from_static(b"second"))
        .expect("write lane one");

    let view = ObservedRing::attach(kind, ring.segment()).expect("attach existing ring");
    assert_eq!(view.metadata().kind, kind);
    assert_eq!(view.metadata().spec, spec);
    assert_eq!(view.metadata().lane_count, 2);

    let lane_zero = view.lane(0).expect("lane zero");
    let lane_one = view.lane(1).expect("lane one");
    assert!(view.lane(2).is_none());
    assert_eq!(lane_zero.read_head().expect("lane zero head").id, first);
    assert_eq!(lane_one.read_head().expect("lane one head").id, second);
    assert_eq!(lane_zero.retained_range(), (0, 1));

    let mut cursor = RingCursor::from_start();
    let poll = poll_ring(&lane_one, &mut cursor);
    assert_eq!(poll.frames.len(), 1);
    assert_eq!(poll.frames[0].payload.as_ref(), b"second");

    drop(view);
    assert_eq!(ring.read(second).expect("writer survives observer drop").ver, 102);
}

#[derive(Clone)]
struct ExpectedRing;

impl OrbitTyped for ExpectedRing {
    const KIND: u8 = 248;
    const RING_CAPACITY: usize = 8;
    const RING_PAYLOAD_CAPACITY: usize = 32;
    const RING_TOPOLOGY: RingTopology = RingTopology::Shared;
}

#[test]
fn typed_observation_rejects_a_different_persisted_spec() {
    let ring = ShmRing::open_or_create(ExpectedRing::KIND, RingSpec::new(4, 32), None)
        .expect("create mismatched ring");
    let view = ObservedRing::attach(ExpectedRing::KIND, ring.segment()).expect("attach");

    let error = view
        .expect::<ExpectedRing>()
        .expect_err("typed observer must verify the linked contract");
    assert_eq!(error.kind(), ShmErrorKind::InvalidData);
    assert!(error.to_string("segment").contains("existing spec"));
}

#[test]
fn observers_refuse_what_is_no_ring() {
    let ring = ShmRing::open_or_create(5, RingSpec::new(4, 32), None).expect("ring");
    let segment = ring.segment();
    let refused = |segment: Vec<u8>| ObservedRing::attach(5, segment).err().expect("refused");
    assert_eq!(
        refused(segment[..63].to_vec()),
        ShmError::SegmentTooSmall {
            actual: 63,
            requested: 64
        }
    );
    let mut topology = segment.clone();
    topology[33] = 7;
    assert_eq!(
        refused(topology),
        ShmError::WrongTopology {
            found: 7,
            requested: 0
        }
    );
    let mut lanes = segment.clone();
    lanes[34] = 0;
    assert_eq!(refused(lanes), ShmError::FleetEmpty);
    assert_eq!(
        ObservedRing::attach(6, segment.clone()).err(),
        Some(ShmError::WrongKind {
            found: 5,
            requested: 6
        })
    );
    assert_eq!(
        refused(segment[..segment.len() - 1].to_vec()),
        ShmError::SegmentTooSmall {
            actual: segment.len() - 1,
            requested: segment.len()
        }
    );
}
