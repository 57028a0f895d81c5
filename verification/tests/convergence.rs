use bytes::Bytes;
use orbitive::cache::{
    ApplyOutcome, CacheMutation, CacheRead, CacheRevision, LocalCache, PayloadRef,
};
use orbitive::NetId64;

fn revision(sequence: u64) -> CacheRevision {
    CacheRevision {
        sequence,
        mutation_id: NetId64::make(200, 1, sequence),
    }
}

fn put(key: &'static [u8], sequence: u64) -> CacheMutation {
    CacheMutation::Put {
        store: Bytes::from_static(b"s"),
        key: Bytes::from_static(key),
        revision: revision(sequence),
        expires_at_ms: None,
        payload: PayloadRef {
            first_id: NetId64::make(201, 1, sequence),
            payload_version: sequence,
            chunk_count: 1,
            value_len: 1,
        },
    }
}

fn delete(key: &'static [u8], sequence: u64) -> CacheMutation {
    CacheMutation::Delete {
        store: Bytes::from_static(b"s"),
        key: Bytes::from_static(key),
        revision: revision(sequence),
    }
}

fn reset(sequence: u64) -> CacheMutation {
    CacheMutation::Reset {
        store: Bytes::from_static(b"s"),
        revision: revision(sequence),
    }
}

/// The mutations of one run: a put that a reset reaches, one that it does not, a
/// key whose last mutation is a delete, and one that is put twice.
fn mutation(which: usize) -> (CacheMutation, Option<Bytes>) {
    match which {
        0 => (put(b"a", 1), Some(Bytes::from_static(b"1"))),
        1 => (put(b"b", 5), Some(Bytes::from_static(b"5"))),
        2 => (reset(2), None),
        3 => (put(b"c", 3), Some(Bytes::from_static(b"3"))),
        4 => (delete(b"c", 6), None),
        5 => (put(b"b", 4), Some(Bytes::from_static(b"4"))),
        _ => unreachable!(),
    }
}

fn value(read: CacheRead) -> Option<Vec<u8>> {
    match read {
        CacheRead::Hit(entry) => Some(entry.value.to_vec()),
        CacheRead::Miss => None,
        CacheRead::ResyncRequired => panic!("nothing was lost"),
    }
}

fn check(order: &[usize]) {
    let mut local = LocalCache::new(3);
    for which in order {
        let (mutation, found) = mutation(*which);
        local.apply(mutation, found);
    }
    assert_eq!(value(local.read_at(b"a", 0)), None, "{order:?}");
    assert_eq!(value(local.read_at(b"b", 0)), Some(b"5".to_vec()), "{order:?}");
    assert_eq!(value(local.read_at(b"c", 0)), None, "{order:?}");
    for which in order {
        let (mutation, found) = mutation(*which);
        assert!(matches!(
            local.apply(mutation, found),
            ApplyOutcome::Ignored
        ));
    }
    assert_eq!(value(local.read_at(b"b", 0)), Some(b"5".to_vec()), "{order:?}");
}

fn permute(order: &mut Vec<usize>, from: usize) {
    if from == order.len() {
        check(order);
        return;
    }
    for other in from..order.len() {
        order.swap(from, other);
        permute(order, from + 1);
        order.swap(from, other);
    }
}

#[test]
fn every_order_of_mutations_gives_the_same_reads() {
    permute(&mut vec![0, 1, 2, 3, 4, 5], 0);
    check(&[0, 0, 5, 1, 5, 2, 3, 4, 2, 1]);
}
