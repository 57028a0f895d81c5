use bytes::Bytes;
use orbitive::cache::layout::{MutationRecord, PayloadRecord};
use orbitive::cache::{
    Cache, CacheLayout, CacheMutation, CacheRead, CacheTransport, DefaultCacheLayout, Error,
};
use orbitive::fleet::{Fleet, NodeId};
use orbitive::ring::RingTopology;

const NOW: u64 = 1_000;

/// Publishes as another member: what the member's own handle writes is copied
/// into its lanes of the observed fleet.
fn copy_lanes(from: &Fleet, to: &mut Fleet, node: NodeId) {
    let mut counter = 0;
    while counter < from.lane_head::<MutationRecord<DefaultCacheLayout>>(node) {
        let frame = from
            .read_lane_at::<MutationRecord<DefaultCacheLayout>>(node, counter)
            .expect("frame");
        to.ring::<MutationRecord<DefaultCacheLayout>>().write(
            node,
            frame.kind,
            frame.ver,
            frame.payload,
        );
        counter += 1;
    }
    counter = 0;
    while counter < from.lane_head::<PayloadRecord<DefaultCacheLayout>>(node) {
        let frame = from
            .read_lane_at::<PayloadRecord<DefaultCacheLayout>>(node, counter)
            .expect("frame");
        to.ring::<PayloadRecord<DefaultCacheLayout>>().write(
            node,
            frame.kind,
            frame.ver,
            frame.payload,
        );
        counter += 1;
    }
}

#[test]
fn child_put_wakes_and_populates_parent_l1() {
    let mut parent_fleet = Fleet::join_as("cache", 2, NodeId::new(0)).expect("parent fleet");
    let mut parent_cache =
        Cache::<DefaultCacheLayout>::new(&parent_fleet).expect("parent cache");
    let parent = parent_cache.open_default_store().expect("parent store");

    let mut child_fleet = Fleet::join_as("cache", 2, NodeId::new(1)).expect("child fleet");
    let mut child_cache = Cache::<DefaultCacheLayout>::new(&child_fleet).expect("child cache");
    let child = child_cache.open_default_store().expect("child store");
    let value = vec![b'x'; 5_000];
    child
        .put(
            &mut child_cache,
            &mut child_fleet,
            b"cross-process",
            &value,
            None,
            NOW,
        )
        .expect("child put");
    copy_lanes(&child_fleet, &mut parent_fleet, NodeId::new(1));

    let poll = parent_cache.poll(&parent_fleet);
    let observed = parent.read_at(&mut parent_cache, b"cross-process", NOW);
    assert_eq!(poll.observed, 1);
    assert_eq!(poll.applied, 1);
    let CacheRead::Hit(entry) = observed else {
        panic!("parent L1 must contain child value");
    };
    assert_eq!(entry.value.len(), 5_000);
    assert!(entry.value.iter().all(|byte| *byte == b'x'));
}

#[test]
fn writers_in_different_lanes_converge_by_shared_revision() {
    let mut fleet = Fleet::join_as("cache", 2, NodeId::new(0)).expect("parent fleet");
    let mut cache = Cache::<DefaultCacheLayout>::new(&fleet).expect("parent cache");
    let parent = cache.open_default_store().expect("parent store");
    let observer = CacheTransport::<DefaultCacheLayout>::new().expect("observer transport");
    let mut cursor = observer.cursor_at_head(&fleet);

    parent
        .put(&mut cache, &mut fleet, b"same-key", b"parent", None, NOW)
        .expect("parent put");
    // The other member takes the next revision for its own put.
    let mut child_fleet = Fleet::join_as("cache", 2, NodeId::new(1)).expect("child fleet");
    child_fleet.next_ring_version::<MutationRecord<DefaultCacheLayout>>();
    let mut child_cache = Cache::<DefaultCacheLayout>::new(&child_fleet).expect("child cache");
    let child = child_cache.open_default_store().expect("child store");
    child
        .put(
            &mut child_cache,
            &mut child_fleet,
            b"same-key",
            b"child",
            None,
            NOW,
        )
        .expect("child put");
    copy_lanes(&child_fleet, &mut fleet, NodeId::new(1));

    let observed = observer.poll(&fleet, &mut cursor);
    assert_eq!(observed.mutations.len(), 2);
    assert!(
        observed.mutations[0].revision().sequence < observed.mutations[1].revision().sequence
    );
    let CacheMutation::Put { payload, .. } = &observed.mutations[1] else {
        panic!("newest mutation must be a put");
    };
    let expected = observer
        .read_payload(&fleet, *payload)
        .expect("winning payload");

    let poll = cache.poll(&fleet);
    let CacheRead::Hit(actual) = parent.read_at(&mut cache, b"same-key", NOW) else {
        panic!("parent must retain the winning write");
    };
    assert_eq!(poll.observed, 2);
    assert_eq!(actual.value, expected);
    assert_eq!(&actual.value[..], b"child");
}

#[test]
fn a_put_is_read_until_it_is_deleted_expired_or_reset() {
    let mut fleet = Fleet::join("cache-local", 1).expect("fleet");
    let mut cache = Cache::<DefaultCacheLayout>::new(&fleet).expect("cache");
    let store = cache.open_store(b"sessions", 8).expect("store");
    assert_eq!(&store.name()[..], b"sessions");
    assert_eq!(store.read_at(&mut cache, b"k", NOW), CacheRead::Miss);
    store
        .put(&mut cache, &mut fleet, b"k", b"v", Some(10), NOW)
        .expect("put");
    assert!(matches!(
        store.read_at(&mut cache, b"k", NOW + 9),
        CacheRead::Hit(_)
    ));
    assert_eq!(store.read_at(&mut cache, b"k", NOW + 10), CacheRead::Miss);
    store
        .put(&mut cache, &mut fleet, b"k", b"w", None, NOW)
        .expect("put");
    store.delete(&mut cache, &mut fleet, b"k").expect("delete");
    assert_eq!(store.read_at(&mut cache, b"k", NOW), CacheRead::Miss);
    store
        .put(&mut cache, &mut fleet, b"a", b"1", None, NOW)
        .expect("put");
    store.reset(&mut cache, &mut fleet).expect("reset");
    assert_eq!(store.read_at(&mut cache, b"a", NOW), CacheRead::Miss);
    assert!(store.local(&cache).is_empty());
}

#[test]
fn the_least_recently_read_entry_makes_room() {
    let mut fleet = Fleet::join("cache-lru", 1).expect("fleet");
    let mut cache = Cache::<DefaultCacheLayout>::new(&fleet).expect("cache");
    let store = cache.open_store(b"s", 2).expect("store");
    for key in [b"a", b"b", b"c"] {
        store
            .put(&mut cache, &mut fleet, key, b"v", None, NOW)
            .expect("put");
    }
    assert_eq!(store.read_at(&mut cache, b"a", NOW), CacheRead::Miss);
    assert!(matches!(
        store.read_at(&mut cache, b"c", NOW),
        CacheRead::Hit(_)
    ));
    assert!(matches!(
        store.read_at(&mut cache, b"b", NOW),
        CacheRead::Hit(_)
    ));
    assert_eq!(store.local(&cache).len(), 2);
    // Now the younger one is the least recently read. With it goes all that is
    // older.
    store
        .put(&mut cache, &mut fleet, b"d", b"v", None, NOW)
        .expect("put");
    assert_eq!(store.read_at(&mut cache, b"c", NOW), CacheRead::Miss);
    assert_eq!(store.read_at(&mut cache, b"b", NOW), CacheRead::Miss);
    assert_eq!(store.local(&cache).len(), 1);
}

#[test]
fn a_loss_stops_serving_until_the_store_is_recovered() {
    let mut fleet = Fleet::join("cache-loss", 1).expect("fleet");
    let mut reader = Cache::<TinyLayout>::new(&fleet).expect("cache");
    let store = reader.open_store(b"s", 8).expect("store");
    let transport = CacheTransport::<TinyLayout>::new().expect("transport");
    for n in 0..4_u8 {
        transport
            .publish_put(&mut fleet, b"s", &[b'k', n], b"v", None, NOW)
            .expect("put");
    }
    let poll = reader.poll(&fleet);
    assert!(poll.resync_required);
    assert_eq!(poll.loss.overwritten, 2);
    assert_eq!(
        store.read_at(&mut reader, b"k", NOW),
        CacheRead::ResyncRequired
    );
    reader.recover_from_backing(&fleet);
    assert_eq!(store.read_at(&mut reader, b"k", NOW), CacheRead::Miss);
    assert!(store.local(&reader).is_coherent());
}

struct TinyLayout;

impl CacheLayout for TinyLayout {
    const MUTATION_RING_KIND: u8 = 80;
    const MUTATION_RING_CAPACITY: usize = 2;
    const MUTATION_RING_PAYLOAD_CAPACITY: usize = 128;
    const MUTATION_RING_TOPOLOGY: RingTopology = RingTopology::PerNode;
    const PAYLOAD_RING_KIND: u8 = 81;
    const PAYLOAD_RING_CAPACITY: usize = 4;
    const PAYLOAD_RING_PAYLOAD_CAPACITY: usize = 8;
    const PAYLOAD_RING_TOPOLOGY: RingTopology = RingTopology::PerNode;
}

#[test]
fn values_are_split_over_chunks_and_joined_again() {
    let mut fleet = Fleet::join("cache-chunks", 1).expect("fleet");
    let transport = CacheTransport::<TinyLayout>::new().expect("transport");
    let mut cursor = transport.cursor_from_start(&fleet);
    assert_eq!(transport.max_value_len(), 32);
    let value: Vec<u8> = (0..20).collect();
    transport
        .publish_put(&mut fleet, b"s", b"k", &value, None, NOW)
        .expect("put");
    let poll = transport.poll(&fleet, &mut cursor);
    assert_eq!(poll.mutations.len(), 1);
    let CacheMutation::Put { payload, .. } = &poll.mutations[0] else {
        panic!("a put");
    };
    assert_eq!(payload.chunk_count, 3);
    assert_eq!(
        transport.read_payload(&fleet, *payload),
        Some(Bytes::from(value))
    );
    // Five more chunks overwrite the value.
    transport
        .publish_put(&mut fleet, b"s", b"l", &[7; 32], None, NOW)
        .expect("put");
    assert_eq!(transport.read_payload(&fleet, *payload), None);
}

#[test]
fn cache_requests_are_checked() {
    let mut fleet = Fleet::join("cache-checks", 1).expect("fleet");
    let mut cache = Cache::<TinyLayout>::new(&fleet).expect("cache");
    assert_eq!(cache.open_store(b"", 8).err(), Some(Error::StoreEmpty));
    let store = cache.open_store(b"s", 8).expect("store");
    assert_eq!(
        store.put(&mut cache, &mut fleet, b"", b"v", None, NOW).err(),
        Some(Error::KeyEmpty)
    );
    assert_eq!(
        store
            .put(&mut cache, &mut fleet, b"k", &[0; 33], None, NOW)
            .err(),
        Some(Error::ValueTooLarge {
            value_len: 33,
            max: 32
        })
    );
    let max = cache.transport().max_key_len(b"s");
    assert_eq!(
        store
            .put(&mut cache, &mut fleet, &vec![b'k'; max + 1], b"v", None, NOW)
            .err(),
        Some(Error::KeyTooLarge {
            key_len: max + 1,
            max
        })
    );
    let longest = cache.transport().max_store_len();
    assert_eq!(
        cache.open_store(&vec![b's'; longest + 1], 8).err(),
        Some(Error::StoreTooLarge {
            store_len: longest + 1,
            max: longest
        })
    );
}

#[test]
fn unknown_stores_are_reported() {
    let mut fleet = Fleet::join("cache-unknown", 1).expect("fleet");
    let mut cache = Cache::<DefaultCacheLayout>::new(&fleet).expect("cache");
    let transport = CacheTransport::<DefaultCacheLayout>::new().expect("transport");
    transport
        .publish_put(&mut fleet, b"elsewhere", b"k", b"v", None, NOW)
        .expect("put");
    let poll = cache.poll(&fleet);
    assert_eq!(poll.unknown_stores, vec![Bytes::from_static(b"elsewhere")]);
    assert!(!poll.resync_required);
    assert!(cache.poll(&fleet).is_empty());
}

#[test]
fn cache_errors_are_told_in_words() {
    let told = [
        (Error::StoreEmpty, "cache store must not be empty"),
        (
            Error::StoreTooLarge {
                store_len: 2,
                max: 1,
            },
            "cache store is too large: 2 > 1",
        ),
        (Error::KeyEmpty, "cache key must not be empty"),
        (
            Error::KeyTooLarge { key_len: 2, max: 1 },
            "cache key is too large: 2 > 1",
        ),
        (
            Error::ValueTooLarge {
                value_len: 2,
                max: 1,
            },
            "cache value is too large: 2 > 1",
        ),
        (
            Error::InvalidLayout("kinds"),
            "invalid cache layout: kinds",
        ),
    ];
    for (error, words) in told {
        assert_eq!(error.to_string(), words);
    }
}
