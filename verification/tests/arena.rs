use orbitive::arena::{
    segment_size, Arena, ArenaHeader, Error, Key, Record, ARENA_BYTES, ARENA_RECORD_MAX,
    ARENA_SLOTS,
};

#[test]
fn put_get_replace_forget() {
    let mut arena = Arena::new();
    let key = Key::new(7);
    assert!(arena.get(key).is_none());

    arena
        .put(
            key,
            Record::body(b"hello").encoded(b"h", 1).stamp(42).extra(5),
        )
        .unwrap();
    let entry = arena.get(key).unwrap();
    assert_eq!(entry.body(&arena), b"hello");
    assert_eq!(entry.encoded(&arena), Some((&b"h"[..], 1)));
    assert_eq!((entry.stamp(), entry.extra()), (42, 5));
    arena.release(entry);

    arena.put(key, Record::body(b"world")).unwrap();
    let entry = arena.get(key).unwrap();
    assert_eq!(entry.body(&arena), b"world");
    assert!(entry.encoded(&arena).is_none());
    assert_eq!(arena.len(), 1);
    arena.release(entry);

    assert!(arena.forget(key));
    assert!(arena.get(key).is_none());
    assert!(!arena.forget(key));
}

#[test]
fn the_ring_evicts_what_the_cursor_reaches_and_skips_what_is_pinned() {
    let mut arena = Arena::new();
    let chunk = vec![0xAB_u8; ARENA_RECORD_MAX];
    let records = ARENA_BYTES / ARENA_RECORD_MAX; // fills the ring exactly
    for n in 0..records {
        arena
            .put(Key::new(n as u128), Record::body(&chunk))
            .unwrap();
    }
    assert_eq!(arena.len(), records);

    // Pin the first record, then wrap: it must survive, the second must go.
    let pinned = arena.get(Key::new(0)).unwrap();
    arena.put(Key::new(1_000), Record::body(&chunk)).unwrap();
    assert_eq!(pinned.body(&arena).len(), ARENA_RECORD_MAX);
    let again = arena.get(Key::new(0));
    assert!(again.is_some(), "a pinned record is not evicted");
    arena.release(again.unwrap());
    assert!(
        arena.get(Key::new(1)).is_none(),
        "the cursor moved past the pin"
    );
    arena.release(pinned);

    let too_big = vec![0_u8; ARENA_RECORD_MAX + 1];
    assert!(matches!(
        arena.put(Key::new(9), Record::body(&too_big)),
        Err(Error::TooLarge { .. })
    ));
}

#[test]
fn reset_empties_the_index_but_not_a_held_entry() {
    let mut arena = Arena::new();
    arena.put(Key::new(1), Record::body(b"one")).unwrap();
    arena.put(Key::new(2), Record::body(b"two")).unwrap();
    let held = arena.get(Key::new(1)).unwrap();
    let generation = arena.generation();

    assert_eq!(arena.reset(), 2);
    assert_eq!(arena.generation(), generation + 1);
    assert!(arena.get(Key::new(1)).is_none());
    assert!(arena.get(Key::new(2)).is_none());
    assert_eq!(held.body(&arena), b"one");
    arena.release(held);

    // The retired slot is reusable once the reader is gone.
    arena.put(Key::new(1), Record::body(b"again")).unwrap();
    let entry = arena.get(Key::new(1)).unwrap();
    assert_eq!(entry.body(&arena), b"again");
}

#[test]
fn a_view_owns_the_pin() {
    let mut arena = Arena::new();
    arena
        .put(Key::new(3), Record::body(b"body").encoded(b"enc", 2))
        .unwrap();
    let view = arena.get(Key::new(3)).unwrap().into_encoded().ok().unwrap();
    assert_eq!(view.as_ref(&arena), b"enc");
    arena.release(view.into_entry());
    let view = arena.get(Key::new(3)).unwrap().into_body();
    assert_eq!(view.as_ref(&arena), b"body");
    assert_eq!(view.entry().body(&arena), b"body");
}

#[test]
fn an_entry_without_an_encoded_body_is_handed_back() {
    let mut arena = Arena::new();
    arena.put(Key::new(3), Record::body(b"body")).unwrap();
    let entry = arena.get(Key::new(3)).unwrap().into_encoded().err().unwrap();
    assert_eq!(entry.body(&arena), b"body");
}

#[test]
fn an_encoded_body_without_bytes_keeps_its_tag() {
    let mut arena = Arena::new();
    arena
        .put(Key::new(1), Record::body(b"x").encoded(b"", 3))
        .unwrap();
    let entry = arena.get(Key::new(1)).unwrap();
    assert_eq!(entry.body(&arena), b"x");
    assert_eq!(entry.encoded(&arena), Some((&b""[..], 3)));
    let view = entry.into_encoded().ok().unwrap();
    assert_eq!(view.as_ref(&arena), b"");
    arena.release(view.into_entry());

    let mut peer = Arena::open_segment(&arena.segment()).unwrap();
    let entry = peer.get(Key::new(1)).unwrap();
    assert_eq!(entry.encoded(&peer), Some((&b""[..], 3)));
}

#[test]
fn a_later_put_of_a_key_gives_another_generation() {
    let mut arena = Arena::new();
    let key = Key::new(7);
    arena.put(key, Record::body(b"a")).unwrap();
    let first = arena.get(key).unwrap();
    arena.put(key, Record::body(b"b")).unwrap();
    let second = arena.get(key).unwrap();
    assert_ne!(second.generation(), first.generation());
    assert_eq!(first.body(&arena), b"a");
    assert_eq!(second.body(&arena), b"b");

    arena.reset();
    let mut peer = Arena::open_segment(&arena.segment()).unwrap();
    peer.put(key, Record::body(b"c")).unwrap();
    let third = peer.get(key).unwrap();
    assert_ne!(third.generation(), first.generation());
    assert_ne!(third.generation(), second.generation());
}

#[test]
fn a_held_record_outlives_everything_until_its_last_reader_goes() {
    let mut arena = Arena::new();
    let key = Key::new(11);
    let chunk = vec![0xCD_u8; ARENA_RECORD_MAX];
    arena
        .put(key, Record::body(b"first").encoded(b"1st", 3).stamp(8))
        .unwrap();
    let one = arena.get(key).unwrap();
    let other = arena.get(key).unwrap();
    let generation = one.generation();
    assert!(arena.forget(key));
    for round in 0..3 {
        for n in 0..8 {
            arena.put(Key::new(n), Record::body(&chunk)).unwrap();
        }
        arena.put(key, Record::body(b"later")).unwrap();
        let later = arena.get(key).unwrap();
        assert_ne!(later.generation(), generation);
        arena.release(later);
        if round == 1 {
            arena.reset();
        }
        assert_eq!(one.body(&arena), b"first");
        assert_eq!(one.encoded(&arena), Some((&b"1st"[..], 3)));
        assert_eq!(one.stamp(), 8);
    }
    arena.release(other);
    arena.put(Key::new(1), Record::body(&chunk)).unwrap();
    assert_eq!(one.body(&arena), b"first", "one reader is left");
    arena.release(one);
}

#[test]
fn a_key_behind_a_forgotten_one_is_still_found() {
    let mut arena = Arena::new();
    let first = Key::new(5);
    let second = Key::new(5 + ARENA_SLOTS as u128);
    arena.put(first, Record::body(b"first")).unwrap();
    arena.put(second, Record::body(b"second")).unwrap();
    assert!(arena.forget(first));
    let entry = arena.get(second).expect("filed, not evicted, not reset");
    assert_eq!(entry.body(&arena), b"second");
    arena.release(entry);
    arena.put(second, Record::body(b"newer")).unwrap();
    assert_eq!(arena.len(), 1);
    assert!(arena.forget(second));
    assert!(arena.get(second).is_none());
}

#[test]
fn room_under_pins_is_refused_and_nothing_is_written() {
    let mut arena = Arena::new();
    let chunk = vec![1_u8; ARENA_RECORD_MAX];
    let mut held = Vec::new();
    for n in 0..ARENA_BYTES / ARENA_RECORD_MAX {
        arena.put(Key::new(n as u128), Record::body(&chunk)).unwrap();
        held.push(arena.get(Key::new(n as u128)).unwrap());
    }
    assert_eq!(
        arena.put(Key::new(99), Record::body(b"x")),
        Err(Error::Pinned)
    );
    for entry in &held {
        assert_eq!(entry.body(&arena)[0], 1);
    }
    arena.release(held.pop().unwrap());
    assert_eq!(arena.put(Key::new(99), Record::body(b"x")), Ok(()));
}

#[test]
fn a_full_index_evicts_what_no_reader_holds() {
    let mut arena = Arena::new();
    for n in 0..ARENA_SLOTS {
        arena.put(Key::new(n as u128), Record::body(b"r")).unwrap();
    }
    assert_eq!(arena.len(), ARENA_SLOTS);
    // The way of this key begins at the slot of key 7, which a reader holds.
    let seventh = arena.get(Key::new(7)).unwrap();
    let key = Key::new(7 + ARENA_SLOTS as u128);
    assert_eq!(arena.put(key, Record::body(b"s")), Ok(()));
    assert_eq!(arena.len(), ARENA_SLOTS);
    let entry = arena.get(key).unwrap();
    assert_eq!(entry.body(&arena), b"s");
    assert_eq!(seventh.body(&arena), b"r");
    assert!(arena.get(Key::new(8)).is_none());
    assert!(arena.get(Key::new(9)).is_some());
}

#[test]
fn an_index_under_pins_is_refused() {
    let mut arena = Arena::new();
    let mut held = Vec::new();
    for n in 0..ARENA_SLOTS {
        arena.put(Key::new(n as u128), Record::body(b"r")).unwrap();
        held.push(arena.get(Key::new(n as u128)).unwrap());
    }
    let key = Key::new(u128::MAX);
    assert_eq!(arena.put(key, Record::body(b"s")), Err(Error::Pinned));
    arena.release(held.pop().unwrap());
    assert_eq!(arena.put(key, Record::body(b"s")), Ok(()));
}

#[test]
fn keys_are_read_least_significant_byte_first() {
    let mut digest = [0_u8; 16];
    digest[0] = 7;
    digest[8] = 1;
    digest[15] = 0x80;
    assert_eq!(Key::from_bytes(digest).get(), u128::from_le_bytes(digest));
    assert_eq!(Key::from_bytes([0; 16]), Key::new(0));
}

#[test]
fn the_segment_says_how_it_is_laid_out() {
    let header = ArenaHeader::new();
    assert!(header.compatible());
    assert!(!ArenaHeader { slots: 8, ..header }.compatible());
    assert!(!ArenaHeader { magic: 0, ..header }.compatible());
    assert_eq!(segment_size(), 64 + 4_096 * 128 + 67_108_864);
}

#[test]
fn arena_errors_are_told_in_words() {
    assert_eq!(
        Error::TooLarge { len: 20, max: 10 }.to_string(),
        "record of 20 bytes exceeds the arena record limit of 10"
    );
    assert_eq!(
        Error::Pinned.to_string(),
        "the arena has no unpinned room for the record"
    );
}
