use bytes::Bytes;
use orbitive::fleet::NodeId;
use orbitive::ring::cursor::{poll_ring, RingCursor};
use orbitive::ring::shm::layout::{
    segment_size_for_spec, segment_size_for_spec_and_fleet, ShmError, ShmErrorKind,
};
use orbitive::ring::shm::registry::ShmRingRegistry;
use orbitive::ring::shm::ShmRing;
use orbitive::ring::{RingSpec, RingTopology};
use orbitive::OrbitTyped;

fn spec(capacity: usize) -> RingSpec {
    RingSpec::new(capacity, 16)
}

#[test]
fn open_or_create_creates_first_then_attaches() {
    let r1 = ShmRing::open_or_create(7, spec(16), None).unwrap();
    assert!(r1.created(), "first opener creates");
    let r2 = ShmRing::open_or_create(7, spec(16), Some(r1.segment())).unwrap();
    assert!(!r2.created(), "second opener attaches");
}

#[test]
fn write_then_read_returns_same_frame() {
    let mut ring = ShmRing::open_or_create(7, spec(16), None).unwrap();
    let id = ring
        .write(NodeId::new(3), 0, 42, Bytes::from_static(b"hello"))
        .unwrap();
    assert_eq!(id.kind(), 7);
    assert_eq!(id.node(), 3);
    assert_eq!(id.counter(), 0);

    let frame = ring.read(id).unwrap();
    assert_eq!(frame.id, id);
    assert_eq!(frame.kind, 0);
    assert_eq!(frame.ver, 42);
    assert_eq!(&frame.payload[..], b"hello");
}

#[test]
fn head_advances_with_writes() {
    let mut ring = ShmRing::open_or_create(5, spec(16), None).unwrap();
    assert_eq!(ring.head(), 0);
    ring.write(NodeId::new(0), 0, 0, Bytes::from_static(b"a"))
        .unwrap();
    ring.write(NodeId::new(0), 0, 0, Bytes::from_static(b"b"))
        .unwrap();
    assert_eq!(ring.head(), 2);
}

#[test]
fn read_head_returns_latest() {
    let mut ring = ShmRing::open_or_create(5, spec(16), None).unwrap();
    assert!(ring.read_head().is_none());

    ring.write(NodeId::new(0), 0, 0, Bytes::from_static(b"first"))
        .unwrap();
    let last = ring
        .write(NodeId::new(0), 0, 0, Bytes::from_static(b"second"))
        .unwrap();

    let frame = ring.read_head().unwrap();
    assert_eq!(frame.id, last);
    assert_eq!(&frame.payload[..], b"second");
}

#[test]
fn wraparound_overwrites_old_slots() {
    let mut ring = ShmRing::open_or_create(5, spec(4), None).unwrap();
    let mut ids = Vec::new();
    for i in 0..6 {
        let id = ring
            .write(NodeId::new(0), 0, 0, Bytes::from(vec![i]))
            .unwrap();
        ids.push(id);
    }
    // First two slots overwritten by writes 4 and 5 (capacity = 4).
    assert!(ring.read(ids[0]).is_none());
    assert!(ring.read(ids[1]).is_none());
    for id in &ids[2..] {
        assert!(ring.read(*id).is_some(), "id should still be live");
    }
}

#[test]
fn two_handles_same_segment_share_state() {
    let mut writer = ShmRing::open_or_create(9, spec(16), None).unwrap();
    let id = writer
        .write(NodeId::new(1), 0, 0, Bytes::from_static(b"shared"))
        .unwrap();
    let reader = ShmRing::open_or_create(9, spec(16), Some(writer.segment())).unwrap();
    assert!(writer.created());
    assert!(!reader.created());

    // Reader sees what writer wrote — the whole point of SHM.
    let frame = reader.read(id).unwrap();
    assert_eq!(&frame.payload[..], b"shared");
}

#[test]
fn payload_too_large_returns_error() {
    let ring_spec = RingSpec::new(16, 8);
    let mut ring = ShmRing::open_or_create(3, ring_spec, None).unwrap();
    let huge = Bytes::from(vec![0u8; ring_spec.payload_capacity + 1]);
    assert!(ring.write(NodeId::new(0), 0, 0, huge).is_err());
}

#[test]
fn segment_size_uses_the_ring_payload_capacity() {
    let small = segment_size_for_spec(RingSpec::new(4, 16)).unwrap();
    let large = segment_size_for_spec(RingSpec::new(4, 256)).unwrap();

    assert_eq!(small, 64 + 64 + 4 * 64);
    assert_eq!(large, 64 + 64 + 4 * 320);
}

#[test]
fn per_node_segment_size_multiplies_the_lane_storage() {
    let size = segment_size_for_spec_and_fleet(RingSpec::per_node(4, 16), 3).unwrap();

    assert_eq!(size, 64 + 3 * 64 + 3 * 4 * 64);
}

#[test]
fn same_kind_rejects_a_different_ring_spec() {
    let original_spec = RingSpec::new(16, 32);
    let ring = ShmRing::open_or_create(14, original_spec, None).unwrap();
    let mut larger = ring.segment();
    larger.resize(1 << 16, 0);

    let err = match ShmRing::open_or_create(14, RingSpec::new(16, 256), Some(larger)) {
        Ok(_) => panic!("same SHM path must reject a different slot layout"),
        Err(err) => err,
    };
    assert_eq!(err.kind(), ShmErrorKind::InvalidData);
    assert_eq!(
        err,
        ShmError::WrongPayloadCapacity {
            found: 32,
            requested: 256
        }
    );
}

#[test]
fn zero_payload_ring_accepts_only_empty_frames() {
    let mut ring = ShmRing::open_or_create(15, RingSpec::new(16, 0), None).unwrap();

    ring.write(NodeId::new(0), 1, 0, Bytes::new())
        .expect("empty heartbeat-like frame");
    assert!(ring
        .write(NodeId::new(0), 1, 0, Bytes::from_static(b"x"))
        .is_err());
}

#[test]
fn shared_ordered_gives_every_writer_the_next_counter() {
    let mut ring = ShmRing::open_or_create(16, RingSpec::shared_ordered(2048, 0), None).unwrap();
    ring.reset();
    for n in 0..2_000_u64 {
        let node = NodeId::new(1 + (n % 2) as u16);
        let id = ring.write(node, 1, 0, Bytes::new()).unwrap();
        assert_eq!(id.counter(), n);
    }
    assert_eq!(ring.head(), 2000);
    for counter in 0..2000 {
        let frame = ring.read_at(counter).expect("ordered frame retained");
        assert_eq!(frame.id.counter(), counter);
    }
}

#[test]
fn per_node_batch_is_contiguous_and_addressable() {
    let ring_spec = RingSpec::per_node(4, 8);
    let mut ring = ShmRing::open_or_create_for_fleet(17, ring_spec, 2, None).unwrap();
    let ids = ring
        .write_batch(
            NodeId::new(1),
            3,
            99,
            vec![
                Bytes::from_static(b"aa"),
                Bytes::from_static(b"bb"),
                Bytes::from_static(b"cc"),
            ],
        )
        .unwrap();

    assert_eq!(ids.len(), 3);
    assert_eq!(ids[0].node(), 1);
    assert_eq!(ids[0].counter(), 0);
    assert_eq!(ids[2].counter(), 2);
    assert_eq!(ring.lane_head(NodeId::new(1)), 3);
    assert_eq!(&ring.read(ids[1]).expect("middle frame").payload[..], b"bb");
}

#[test]
fn attached_handles_share_one_semantic_version_counter() {
    let ring_spec = RingSpec::per_node(4, 8);
    let mut first = ShmRing::open_or_create_for_fleet(18, ring_spec, 2, None).unwrap();
    assert_eq!(first.next_version(), 1);
    let mut second =
        ShmRing::open_or_create_for_fleet(18, ring_spec, 2, Some(first.segment())).unwrap();
    assert_eq!(second.next_version(), 2);
    let mut third =
        ShmRing::open_or_create_for_fleet(18, ring_spec, 2, Some(second.segment())).unwrap();
    assert_eq!(third.next_version(), 3);
    assert_eq!(third.current_version(), 3);
}

#[test]
fn a_cursor_walks_a_segment() {
    let mut ring = ShmRing::open_or_create(5, spec(4), None).unwrap();
    let mut cursor = RingCursor::from_start();
    for n in 0..6_u8 {
        ring.write(NodeId::new(0), n, 0, Bytes::from(vec![n]))
            .unwrap();
    }
    let poll = poll_ring(&ring, &mut cursor);
    assert_eq!(poll.loss.overwritten, 2);
    assert_eq!(poll.loss.unavailable, 0);
    let kinds: Vec<u8> = poll.frames.iter().map(|frame| frame.kind).collect();
    assert_eq!(kinds, [2, 3, 4, 5]);
    ring.reset();
    assert_eq!(ring.head(), 0);
    assert!(ring.read_head().is_none());
}

fn refused(kind: u8, spec: RingSpec, fleet: u16, segment: Option<Vec<u8>>) -> ShmError {
    match ShmRing::open_or_create_for_fleet(kind, spec, fleet, segment) {
        Ok(_) => panic!("must be refused"),
        Err(error) => error,
    }
}

#[test]
fn geometries_without_a_layout_are_refused() {
    assert_eq!(refused(1, spec(16), 0, None), ShmError::FleetEmpty);
    assert_eq!(refused(1, spec(0), 1, None), ShmError::CapacityZero);
    assert_eq!(refused(1, spec(3), 1, None), ShmError::CapacityNotPowerOfTwo);
    assert_eq!(
        segment_size_for_spec(RingSpec::new(2, 0x1_0000_0000)),
        Err(ShmError::PayloadCapacityTooLarge)
    );
    assert_eq!(
        segment_size_for_spec(RingSpec::new(2, 0xFFFF_FFFF)),
        Err(ShmError::SlotStrideTooLarge)
    );
    assert_eq!(
        segment_size_for_spec(RingSpec::new(1 << 63, 16)),
        Err(ShmError::LaneSizeOverflow)
    );
    assert_eq!(
        segment_size_for_spec_and_fleet(RingSpec::per_node(1 << 57, 16), 9),
        Err(ShmError::SlotsSizeOverflow)
    );
    assert_eq!(
        ShmError::CapacityZero.kind(),
        ShmErrorKind::InvalidInput
    );
}

#[test]
fn foreign_segments_are_refused() {
    let ring = ShmRing::open_or_create_for_fleet(7, RingSpec::per_node(4, 16), 2, None).unwrap();
    let whole = ring.segment();
    let spec = RingSpec::per_node(4, 16);
    assert_eq!(
        refused(7, spec, 2, Some(whole[..whole.len() - 1].to_vec())),
        ShmError::SegmentTooSmall {
            actual: whole.len() - 1,
            requested: whole.len()
        }
    );
    assert_eq!(
        refused(7, spec, 2, Some(vec![0; whole.len()])),
        ShmError::WrongMagic { found: 0 }
    );
    assert_eq!(
        refused(8, spec, 2, Some(whole.clone())),
        ShmError::WrongKind {
            found: 7,
            requested: 8
        }
    );
    assert_eq!(
        refused(7, RingSpec::new(4, 16), 2, Some(whole.clone())),
        ShmError::WrongTopology {
            found: 1,
            requested: 0
        }
    );
    assert_eq!(
        refused(7, spec, 1, Some(whole.clone())),
        ShmError::WrongLaneCount {
            found: 2,
            requested: 1
        }
    );
    assert_eq!(
        refused(7, RingSpec::per_node(2, 16), 2, Some(whole.clone())),
        ShmError::WrongCapacity {
            found: 4,
            requested: 2
        }
    );
    let mut other = whole.clone();
    other[20] = 9;
    assert_eq!(
        refused(7, spec, 2, Some(other)),
        ShmError::WrongVersion { found: 9 }
    );
    let mut stride = whole;
    stride[28] = 1;
    assert_eq!(
        refused(7, spec, 2, Some(stride)),
        ShmError::WrongSlotStride {
            found: 1,
            requested: 64
        }
    );
}

#[test]
fn oversized_batches_are_refused_whole() {
    let mut ring = ShmRing::open_or_create(7, spec(2), None).unwrap();
    let three = vec![Bytes::new(), Bytes::new(), Bytes::new()];
    assert_eq!(
        ring.write_batch(NodeId::new(0), 0, 0, three),
        Err(ShmError::BatchTooLarge { len: 3, max: 2 })
    );
    let long = vec![Bytes::new(), Bytes::from(vec![0; 17])];
    assert_eq!(
        ring.write_batch(NodeId::new(0), 0, 0, long),
        Err(ShmError::PayloadTooLarge { len: 17, max: 16 })
    );
    assert_eq!(ring.head(), 0);
    assert_eq!(ring.write_batch(NodeId::new(0), 0, 0, Vec::new()), Ok(Vec::new()));
}

#[derive(Clone)]
struct Wide;

impl OrbitTyped for Wide {
    const KIND: u8 = 248;
    const RING_CAPACITY: usize = 8;
    const RING_PAYLOAD_CAPACITY: usize = 32;
    const RING_TOPOLOGY: RingTopology = RingTopology::Shared;
}

#[derive(Clone)]
struct Narrow;

impl OrbitTyped for Narrow {
    const KIND: u8 = 248;
    const RING_CAPACITY: usize = 4;
    const RING_PAYLOAD_CAPACITY: usize = 32;
    const RING_TOPOLOGY: RingTopology = RingTopology::Shared;
}

#[test]
fn a_registry_holds_one_ring_per_kind() {
    let mut registry = ShmRingRegistry::new(2);
    assert!(registry.lookup(Wide::KIND).is_none());
    registry.get_or_create_for::<Wide>(None).expect("opens");
    let id = registry
        .ring_mut(Wide::KIND)
        .write(NodeId::new(1), 0, 0, Bytes::from_static(b"x"))
        .unwrap();
    registry.get_or_create_for::<Wide>(None).expect("registered");
    let ring = registry.lookup(Wide::KIND).expect("ring");
    assert_eq!(&ring.read(id).unwrap().payload[..], b"x");
    let error = registry
        .get_or_create_for::<Narrow>(None)
        .expect_err("the kind was used with another spec");
    assert_eq!(error.kind(), ShmErrorKind::InvalidData);
    assert_eq!(
        error.to_string("s"),
        "OrbitTyped KIND 248 was reused with ring spec RingSpec { capacity: 4, \
         payload_capacity: 32, topology: Shared }; existing spec is RingSpec { capacity: 8, \
         payload_capacity: 32, topology: Shared }"
    );
    let mut other = ShmRingRegistry::new(2);
    assert_eq!(
        other.get_or_create_for::<Wide>(Some(Vec::new())),
        Err(ShmError::SegmentTooSmall {
            actual: 0,
            requested: 64 + 64 + 8 * 64
        })
    );
}

#[test]
fn segment_errors_are_told_in_words() {
    let name = "/orbit-web-7-0";
    let told = [
        (ShmError::FleetEmpty, "ShmRing fleet size must be > 0"),
        (ShmError::CapacityZero, "ShmRing capacity must be > 0"),
        (
            ShmError::WrongMagic { found: 0xAB },
            "SHM segment /orbit-web-7-0 has wrong magic 0x000000AB (expected 0x4F524254)",
        ),
        (
            ShmError::WrongVersion { found: 2 },
            "SHM segment /orbit-web-7-0 version 2 != local 3",
        ),
        (
            ShmError::WrongLaneCount {
                found: 2,
                requested: 3,
            },
            "SHM segment /orbit-web-7-0 lane count 2 != requested 3",
        ),
        (
            ShmError::SegmentTooSmall {
                actual: 1,
                requested: 2,
            },
            "SHM segment /orbit-web-7-0 size 1 is smaller than requested mapping 2",
        ),
        (
            ShmError::PayloadTooLarge { len: 17, max: 16 },
            "payload 17 > ring payload capacity 16",
        ),
        (
            ShmError::BatchTooLarge { len: 3, max: 2 },
            "batch 3 > ring capacity 2",
        ),
    ];
    for (error, words) in told {
        assert_eq!(error.to_string(name), words);
    }
}
