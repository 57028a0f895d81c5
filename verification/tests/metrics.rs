use orbitive::fleet::{Fleet, NodeId};
use orbitive::metrics::{
    find_key, OrbitMetricCollector, OrbitMetricFamily, OrbitMetricKeyedSnapshot,
    OrbitMetricPublisher, OrbitMetricSample, OrbitMetricSnapshot, KEYED_METRIC_RING_CAPACITY,
    METRIC_SNAPSHOT_RING_CAPACITY,
};
use orbitive::ring::RingTopology;
use orbitive::{NetId64, OrbitTyped};

#[derive(Clone, Debug, PartialEq, Eq)]
struct TestSnapshot {
    node: u16,
    captured_at: u64,
    value: u64,
}

impl OrbitTyped for TestSnapshot {
    const KIND: u8 = 211;
    const RING_CAPACITY: usize = METRIC_SNAPSHOT_RING_CAPACITY;
    const RING_PAYLOAD_CAPACITY: usize = 18;
    const RING_TOPOLOGY: RingTopology = RingTopology::Shared;
}

impl OrbitMetricSnapshot for TestSnapshot {
    const FAMILY: &'static str = "test";

    fn node(&self) -> u16 {
        unreachable!()
    }

    fn captured(&self) -> u64 {
        unreachable!()
    }

    fn of_payload(_bytes: vstd::prelude::Seq<u8>) -> Option<Self> {
        unreachable!()
    }

    fn node_id(&self) -> u16 {
        self.node
    }

    fn captured_at_unix_secs(&self) -> u64 {
        self.captured_at
    }

    fn encode(&self) -> Result<Vec<u8>, String> {
        let mut out = Vec::with_capacity(18);
        out.extend_from_slice(&self.node.to_le_bytes());
        out.extend_from_slice(&self.captured_at.to_le_bytes());
        out.extend_from_slice(&self.value.to_le_bytes());
        Ok(out)
    }

    fn decode(bytes: &[u8]) -> Result<Self, String> {
        if bytes.len() != 18 {
            return Err(format!("bad len {}", bytes.len()));
        }
        let node = u16::from_le_bytes(bytes[0..2].try_into().expect("node bytes"));
        let captured_at = u64::from_le_bytes(bytes[2..10].try_into().expect("time bytes"));
        let value = u64::from_le_bytes(bytes[10..18].try_into().expect("value bytes"));
        Ok(Self {
            node,
            captured_at,
            value,
        })
    }
}

fn snapshot(node: u16, captured_at: u64, value: u64) -> TestSnapshot {
    TestSnapshot {
        node,
        captured_at,
        value,
    }
}

#[test]
fn latest_by_node_keeps_newest_sample_per_node() {
    let mut fleet = Fleet::join("metrics-test", 2).unwrap();
    let family = OrbitMetricFamily::<TestSnapshot>::new();
    let publisher = family.publisher();
    let collector = family.collector();

    publisher.publish(&mut fleet, &snapshot(1, 10, 100)).unwrap();
    publisher.publish(&mut fleet, &snapshot(2, 11, 200)).unwrap();
    publisher.publish(&mut fleet, &snapshot(1, 12, 101)).unwrap();

    let latest = collector.latest_by_node(&fleet);
    assert_eq!(latest.len(), 2);
    assert_eq!(latest[&1].snapshot.value, 101);
    assert_eq!(latest[&2].snapshot.value, 200);
}

#[derive(Clone, Debug, PartialEq, Eq)]
struct PerNodeSnapshot(TestSnapshot);

impl OrbitTyped for PerNodeSnapshot {
    const KIND: u8 = 209;
    const RING_CAPACITY: usize = 16;
    const RING_PAYLOAD_CAPACITY: usize = 18;
    const RING_TOPOLOGY: RingTopology = RingTopology::PerNode;
}

impl OrbitMetricSnapshot for PerNodeSnapshot {
    const FAMILY: &'static str = "per-node-test";

    fn node(&self) -> u16 {
        unreachable!()
    }

    fn captured(&self) -> u64 {
        unreachable!()
    }

    fn of_payload(_bytes: vstd::prelude::Seq<u8>) -> Option<Self> {
        unreachable!()
    }

    fn node_id(&self) -> u16 {
        self.0.node_id()
    }

    fn captured_at_unix_secs(&self) -> u64 {
        self.0.captured_at_unix_secs()
    }

    fn encode(&self) -> Result<Vec<u8>, String> {
        self.0.encode()
    }

    fn decode(bytes: &[u8]) -> Result<Self, String> {
        TestSnapshot::decode(bytes).map(Self)
    }
}

fn write_as(fleet: &mut Fleet, node: u16, snapshot: &PerNodeSnapshot) {
    let payload = bytes::Bytes::from(snapshot.encode().unwrap());
    fleet
        .ring::<PerNodeSnapshot>()
        .write(NodeId::new(node), 0, snapshot.0.captured_at, payload);
}

#[test]
fn per_node_family_reads_each_writer_lane() {
    let mut fleet = Fleet::join_as("metrics-lanes", 3, NodeId::new(0)).unwrap();
    fleet.reset_ring::<PerNodeSnapshot>();

    write_as(&mut fleet, 1, &PerNodeSnapshot(snapshot(1, 10, 100)));
    write_as(&mut fleet, 2, &PerNodeSnapshot(snapshot(2, 11, 200)));
    write_as(&mut fleet, 1, &PerNodeSnapshot(snapshot(1, 12, 101)));

    let latest = OrbitMetricCollector::<PerNodeSnapshot>::new().latest_by_node(&fleet);
    assert_eq!(latest.len(), 2);
    assert_eq!(latest[&1].snapshot.0.value, 101);
    assert_eq!(latest[&2].snapshot.0.value, 200);
}

#[test]
fn a_lane_speaks_only_for_its_own_node() {
    let mut fleet = Fleet::join_as("metrics-own-lanes", 3, NodeId::new(0)).unwrap();
    write_as(&mut fleet, 1, &PerNodeSnapshot(snapshot(1, 10, 100)));
    write_as(&mut fleet, 1, &PerNodeSnapshot(snapshot(2, 20, 999)));
    let latest = OrbitMetricCollector::<PerNodeSnapshot>::new().latest_by_node(&fleet);
    assert_eq!(latest.len(), 1);
    assert_eq!(latest[&1].snapshot.0.value, 100);
}

#[test]
fn fresh_by_node_drops_stale_samples() {
    let mut fleet = Fleet::join("metrics-fresh-test", 2).unwrap();
    let family = OrbitMetricFamily::<TestSnapshot>::new();
    let publisher = family.publisher();
    let collector = family.collector();

    publisher.publish(&mut fleet, &snapshot(1, 10, 100)).unwrap();
    publisher.publish(&mut fleet, &snapshot(2, 20, 200)).unwrap();

    let fresh = collector.fresh_by_node(&fleet, 25, 10);
    assert_eq!(fresh.len(), 1);
    assert_eq!(fresh[&2].snapshot.value, 200);
}

#[derive(Clone, Debug, PartialEq, Eq)]
struct KeyedSnapshot {
    node: u16,
    key: &'static str,
    captured_at: u64,
    value: u64,
}

impl OrbitTyped for KeyedSnapshot {
    const KIND: u8 = 212;
    const RING_CAPACITY: usize = KEYED_METRIC_RING_CAPACITY;
    const RING_PAYLOAD_CAPACITY: usize = 64;
    const RING_TOPOLOGY: RingTopology = RingTopology::Shared;
}

fn encode_keyed(snapshot: &KeyedSnapshot) -> Result<Vec<u8>, String> {
    let mut out = Vec::with_capacity(27);
    out.extend_from_slice(&snapshot.node.to_le_bytes());
    out.extend_from_slice(&snapshot.captured_at.to_le_bytes());
    out.extend_from_slice(&snapshot.value.to_le_bytes());
    let key = snapshot.key.as_bytes();
    out.push(key.len() as u8);
    out.extend_from_slice(key);
    Ok(out)
}

fn decode_keyed(bytes: &[u8]) -> Result<KeyedSnapshot, String> {
    if bytes.len() < 19 {
        return Err(format!("bad len {}", bytes.len()));
    }
    let node = u16::from_le_bytes(bytes[0..2].try_into().expect("node bytes"));
    let captured_at = u64::from_le_bytes(bytes[2..10].try_into().expect("time bytes"));
    let value = u64::from_le_bytes(bytes[10..18].try_into().expect("value bytes"));
    let key_len = usize::from(bytes[18]);
    if bytes.len() != 19 + key_len {
        return Err(format!("bad key len {}", bytes.len()));
    }
    let key = std::str::from_utf8(&bytes[19..]).map_err(|e| e.to_string())?;
    let key = match key {
        "alpha" => "alpha",
        "beta" => "beta",
        _ => return Err(format!("unknown key {key}")),
    };
    Ok(KeyedSnapshot {
        node,
        key,
        captured_at,
        value,
    })
}

impl OrbitMetricSnapshot for KeyedSnapshot {
    const FAMILY: &'static str = "keyed-test";

    fn node(&self) -> u16 {
        unreachable!()
    }

    fn captured(&self) -> u64 {
        unreachable!()
    }

    fn of_payload(_bytes: vstd::prelude::Seq<u8>) -> Option<Self> {
        unreachable!()
    }

    fn node_id(&self) -> u16 {
        self.node
    }

    fn captured_at_unix_secs(&self) -> u64 {
        self.captured_at
    }

    fn encode(&self) -> Result<Vec<u8>, String> {
        encode_keyed(self)
    }

    fn decode(bytes: &[u8]) -> Result<Self, String> {
        decode_keyed(bytes)
    }
}

impl OrbitMetricKeyedSnapshot for KeyedSnapshot {
    type Key = String;

    fn key(&self) -> vstd::prelude::Seq<char> {
        unreachable!()
    }

    fn metric_key(&self) -> Self::Key {
        self.key.to_owned()
    }

    fn same_key(one: &String, other: &String) -> bool {
        one == other
    }
}

fn value_of<T: OrbitMetricKeyedSnapshot>(
    samples: &Vec<OrbitMetricSample<T>>,
    key: T::Key,
) -> &T {
    &samples[find_key(samples, &key).expect("a sample of the key")].snapshot
}

fn keyed(node: u16, key: &'static str, captured_at: u64, value: u64) -> KeyedSnapshot {
    KeyedSnapshot {
        node,
        key,
        captured_at,
        value,
    }
}

#[test]
fn latest_by_key_keeps_newest_sample_per_key() {
    let mut fleet = Fleet::join("metrics-keyed-test", 2).unwrap();
    let family = OrbitMetricFamily::<KeyedSnapshot>::new();
    let publisher = family.publisher();
    let collector = family.collector();

    publisher
        .publish(&mut fleet, &keyed(0, "alpha", 10, 100))
        .unwrap();
    publisher
        .publish(&mut fleet, &keyed(0, "beta", 11, 200))
        .unwrap();
    publisher
        .publish(&mut fleet, &keyed(0, "alpha", 12, 101))
        .unwrap();

    let latest = collector.latest_by_key(&fleet);
    assert_eq!(latest.len(), 2);
    assert_eq!(value_of(&latest, "alpha".to_owned()).value, 101);
    assert_eq!(value_of(&latest, "beta".to_owned()).value, 200);

    let fresh = collector.fresh_by_key(&fleet, 21, 9);
    assert_eq!(fresh.len(), 1);
    assert_eq!(value_of(&fresh, "alpha".to_owned()).value, 101);
}

#[derive(Clone, Debug, PartialEq, Eq)]
struct KeyedLanes(KeyedSnapshot);

impl OrbitTyped for KeyedLanes {
    const KIND: u8 = 213;
    const RING_CAPACITY: usize = 8;
    const RING_PAYLOAD_CAPACITY: usize = 64;
    const RING_TOPOLOGY: RingTopology = RingTopology::PerNode;
}

impl OrbitMetricSnapshot for KeyedLanes {
    const FAMILY: &'static str = "keyed-lanes";

    fn node(&self) -> u16 {
        unreachable!()
    }

    fn captured(&self) -> u64 {
        unreachable!()
    }

    fn of_payload(_bytes: vstd::prelude::Seq<u8>) -> Option<Self> {
        unreachable!()
    }

    fn node_id(&self) -> u16 {
        self.0.node
    }

    fn captured_at_unix_secs(&self) -> u64 {
        self.0.captured_at
    }

    fn encode(&self) -> Result<Vec<u8>, String> {
        encode_keyed(&self.0)
    }

    fn decode(bytes: &[u8]) -> Result<Self, String> {
        decode_keyed(bytes).map(Self)
    }
}

impl OrbitMetricKeyedSnapshot for KeyedLanes {
    type Key = String;

    fn key(&self) -> vstd::prelude::Seq<char> {
        unreachable!()
    }

    fn metric_key(&self) -> Self::Key {
        self.0.key.to_owned()
    }

    fn same_key(one: &String, other: &String) -> bool {
        one == other
    }
}

#[test]
fn across_lanes_the_newest_sample_of_a_key_wins() {
    let mut fleet = Fleet::join_as("metrics-keyed-lanes", 3, NodeId::new(0)).unwrap();
    let rows = [
        (2, keyed(2, "alpha", 30, 1)),
        (1, keyed(1, "alpha", 40, 2)),
        (2, keyed(2, "beta", 5, 3)),
        (1, keyed(1, "beta", 5, 4)),
        (1, keyed(1, "alpha", 20, 5)),
    ];
    for (node, row) in rows {
        let row = KeyedLanes(row);
        let payload = bytes::Bytes::from(row.encode().unwrap());
        fleet
            .ring::<KeyedLanes>()
            .write(NodeId::new(node), 0, row.0.captured_at, payload);
    }
    let latest = OrbitMetricCollector::<KeyedLanes>::new().latest_by_key(&fleet);
    assert_eq!(latest.len(), 2);
    // By time first, then by node.
    assert_eq!(value_of(&latest, "alpha".to_owned()).0.value, 2);
    assert_eq!(value_of(&latest, "beta".to_owned()).0.value, 3);
}

#[test]
fn malformed_frames_are_ignored_and_oversized_ones_refused() {
    let mut fleet = Fleet::join("metrics-malformed", 2).unwrap();
    let publisher = OrbitMetricPublisher::<TestSnapshot>::new();
    publisher.publish(&mut fleet, &snapshot(1, 10, 100)).unwrap();
    fleet
        .ring::<TestSnapshot>()
        .write(NodeId::new(0), 0, 0, bytes::Bytes::from_static(b"bad"));
    let latest = OrbitMetricCollector::<TestSnapshot>::new().latest_by_node(&fleet);
    assert_eq!(latest.len(), 1);
    assert_eq!(latest[&1].snapshot.value, 100);

    assert_eq!(
        publisher.publish_encoded(&mut fleet, 1, Ok(vec![0; 19])),
        Err("orbit metrics payload too large for test: 19 > 18".to_owned())
    );
    assert_eq!(
        publisher.publish_encoded(&mut fleet, 1, Err("no".to_owned())),
        Err("no".to_owned())
    );
    let id = publisher.publish(&mut fleet, &snapshot(1, 77, 1)).unwrap();
    assert_eq!(fleet.read(id).expect("frame").ver, 77);
}

#[test]
fn samples_age() {
    let sample = OrbitMetricSample {
        id: NetId64::make(211, 1, 0),
        snapshot: snapshot(1, 100, 7),
    };
    assert_eq!(sample.node_id(), 1);
    assert_eq!(sample.captured_at_unix_secs(), 100);
    assert_eq!(sample.age_secs(130), 30);
    assert_eq!(sample.age_secs(90), 0);
    assert!(sample.is_fresh(130, 30));
    assert!(!sample.is_fresh(131, 30));
}

#[test]
fn every_node_of_a_shared_ring_has_its_sample() {
    let mut fleet = Fleet::join("metrics-logical-nodes", 1).unwrap();
    let family = OrbitMetricFamily::<TestSnapshot>::new();
    let publisher = family.publisher();
    publisher.publish(&mut fleet, &snapshot(1, 10, 100)).unwrap();
    publisher.publish(&mut fleet, &snapshot(2, 11, 200)).unwrap();

    let latest = family.collector().latest_by_node(&fleet);
    assert_eq!(latest.len(), 2);
    assert_eq!(latest[&1].snapshot.value, 100);
    assert_eq!(latest[&2].snapshot.value, 200);
    let fresh = family.collector().fresh_by_node(&fleet, 21, 10);
    assert_eq!(fresh.len(), 1);
    assert_eq!(fresh[&2].snapshot.value, 200);
}
