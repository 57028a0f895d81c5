use bytes::Bytes;
use orbitive::fleet::cursor::FleetLaneCursor;
use orbitive::fleet::{Fleet, NodeId};
use orbitive::ring::cursor::{RingCursor, RingLoss};
use orbitive::ring::{Frame, RingSpec, RingTopology};
use orbitive::{Error, NetId64, OrbitTyped};

#[derive(Clone)]
struct Lanes;

impl OrbitTyped for Lanes {
    const KIND: u8 = 40;
    const RING_CAPACITY: usize = 2;
    const RING_PAYLOAD_CAPACITY: usize = 8;
    const RING_TOPOLOGY: RingTopology = RingTopology::PerNode;
}

#[derive(Clone)]
struct Ordered;

impl OrbitTyped for Ordered {
    const KIND: u8 = 41;
    const RING_CAPACITY: usize = 4;
    const RING_PAYLOAD_CAPACITY: usize = 8;
    const RING_TOPOLOGY: RingTopology = RingTopology::SharedOrdered;
}

#[test]
fn only_members_join() {
    let fleet = Fleet::join_as("web", 3, NodeId::new(2)).expect("fleet");
    assert_eq!(fleet.name(), "web");
    assert_eq!(fleet.fleet_capacity(), 3);
    assert_eq!(fleet.node_id().get(), 2);
    assert_eq!(fleet.node_id().to_string(), "node:2");
    assert_eq!(Fleet::join("web", 0).err(), Some(Error::EmptyFleet));
    assert_eq!(
        Fleet::join_as("web", 3, NodeId::new(3)).err(),
        Some(Error::NodeOutsideFleet {
            node_id: 3,
            fleet_capacity: 3
        })
    );
}

#[test]
fn fleet_errors_are_told_in_words() {
    assert_eq!(
        Error::AlreadyJoined {
            name: "web".to_owned()
        }
        .to_string(),
        "fleet 'web' has already been joined in this process"
    );
    assert_eq!(
        Error::EmptyFleet.to_string(),
        "fleet_capacity must be \u{2265} 1; Orbit needs at least one node lane"
    );
    assert_eq!(
        Error::NodeOutsideFleet {
            node_id: 3,
            fleet_capacity: 2
        }
        .to_string(),
        "node_id 3 is outside fleet_capacity 2"
    );
}

#[test]
fn minted_ids_count_up_per_kind() {
    let mut fleet = Fleet::join_as("web", 3, NodeId::new(2)).expect("fleet");
    let first = fleet.next_id::<Lanes>();
    let second = fleet.next_id::<Lanes>();
    let other = fleet.next_id::<Ordered>();
    assert_eq!((first.kind(), first.node(), first.counter()), (40, 2, 0));
    assert_eq!(second.counter(), 1);
    assert_eq!((other.kind(), other.counter()), (41, 0));
}

#[test]
fn what_was_published_is_read_back() {
    let mut fleet = Fleet::join_as("web", 2, NodeId::new(1)).expect("fleet");
    assert!(fleet.read_head::<Lanes>().is_none());
    let id = fleet.publish::<Lanes>(5, 6, Bytes::from_static(b"abc"));
    assert_eq!(
        fleet.read(id),
        Some(Frame {
            id,
            kind: 5,
            ver: 6,
            payload: Bytes::from_static(b"abc")
        })
    );
    assert_eq!(fleet.head::<Lanes>(), 1);
    assert_eq!(fleet.lane_head::<Lanes>(NodeId::new(0)), 0);
    assert!(fleet.read(NetId64::make(99, 1, 0)).is_none());
    fleet.publish::<Lanes>(5, 7, Bytes::new());
    fleet.publish::<Lanes>(5, 8, Bytes::new());
    assert!(fleet.read(id).is_none(), "overwritten");
    fleet.reset_ring::<Lanes>();
    assert_eq!(fleet.head::<Lanes>(), 0);
}

#[test]
fn lanes_are_walked_one_after_the_other() {
    let mut fleet = Fleet::join_as("web", 2, NodeId::new(0)).expect("fleet");
    let mut cursor = fleet.lane_cursor_from_start::<Lanes>();
    for n in 0..3_u8 {
        fleet
            .ring::<Lanes>()
            .write(NodeId::new(1), n, 0, Bytes::new());
    }
    fleet.publish::<Lanes>(9, 0, Bytes::new());
    let poll = fleet.poll_lanes::<Lanes>(&mut cursor);
    let kinds: Vec<u8> = poll.frames.iter().map(|frame| frame.kind).collect();
    assert_eq!(kinds, [9, 1, 2]);
    assert_eq!(
        poll.loss,
        RingLoss {
            overwritten: 1,
            unavailable: 0
        }
    );
    assert_eq!(cursor.minimum_next_counter(), 1);
    let mut copy = cursor.clone();
    assert!(fleet.poll_lanes::<Lanes>(&mut copy).frames.is_empty());
    let mut late = FleetLaneCursor::from_counter(7);
    assert_eq!(late.minimum_next_counter(), 7);
    assert!(fleet.poll_lanes::<Lanes>(&mut late).frames.is_empty());
}

#[test]
fn a_head_cursor_reads_exactly_the_next_frame() {
    let mut fleet = Fleet::join_as("web", 2, NodeId::new(1)).expect("fleet");
    fleet.publish::<Lanes>(1, 0, Bytes::new());
    let mut cursor = fleet.lane_cursor_at_head::<Lanes>();
    assert!(fleet.poll_lanes::<Lanes>(&mut cursor).frames.is_empty());
    let id = fleet.publish::<Lanes>(2, 0, Bytes::new());
    let poll = fleet.poll_lanes::<Lanes>(&mut cursor);
    assert_eq!(poll.frames.len(), 1);
    assert_eq!(poll.frames[0].id, id);
    assert!(poll.loss.is_empty());
}

#[test]
fn cursors_hold_a_position() {
    assert_eq!(RingCursor::from_start().next_counter(), 0);
    assert_eq!(RingCursor::from_counter(9).next_counter(), 9);
    assert_eq!(RingCursor::default(), RingCursor::from_start());
    let loss = RingLoss {
        overwritten: u64::MAX,
        unavailable: 1,
    };
    assert_eq!(loss.total(), u64::MAX);
    assert!(!loss.is_empty());
}

#[test]
fn specs_name_a_topology() {
    assert_eq!(RingSpec::new(4, 8).topology, RingTopology::Shared);
    assert_eq!(RingSpec::per_node(4, 8).topology, RingTopology::PerNode);
    assert_eq!(
        RingSpec::shared_ordered(4, 8).topology,
        RingTopology::SharedOrdered
    );
    assert!(RingSpec::new(4, 8).is_valid());
    assert!(!RingSpec::new(3, 8).is_valid());
}

#[test]
fn ordered_rings_number_all_members_alike() {
    let mut fleet = Fleet::join_as("web", 2, NodeId::new(0)).expect("fleet");
    let first = fleet.publish::<Ordered>(0, 0, Bytes::new());
    let second = fleet
        .ring::<Ordered>()
        .write(NodeId::new(1), 0, 0, Bytes::new());
    assert_eq!((first.counter(), second.counter()), (0, 1));
    let mut cursor = fleet.cursor_from_start::<Ordered>();
    let poll = fleet.poll_ring::<Ordered>(&mut cursor);
    assert_eq!(poll.frames.len(), 2);
    assert_eq!((poll.from_counter, poll.to_counter), (0, 2));
}

#[test]
fn ids_pack_their_parts() {
    let id = NetId64::make(7, 42, 999);
    assert_eq!((id.kind(), id.node(), id.counter()), (7, 42, 999));
    assert_eq!(id.raw(), (7_u64 << 56) | (42_u64 << 40) | 999);
    assert_eq!(NetId64::from_raw(id.raw()), id);
    assert_eq!(id.to_string(), "7:42:999");
    assert_eq!(NetId64::make(0, 0, 1 << 40).counter(), 0);
}

#[derive(Clone)]
struct OtherLanes;

impl OrbitTyped for OtherLanes {
    const KIND: u8 = 40;
    const RING_CAPACITY: usize = 4;
    const RING_PAYLOAD_CAPACITY: usize = 8;
    const RING_TOPOLOGY: RingTopology = RingTopology::PerNode;
}

#[derive(Clone)]
struct OddLanes;

impl OrbitTyped for OddLanes {
    const KIND: u8 = 43;
    const RING_CAPACITY: usize = 3;
    const RING_PAYLOAD_CAPACITY: usize = 8;
    const RING_TOPOLOGY: RingTopology = RingTopology::PerNode;
}

#[test]
fn a_kind_has_one_geometry() {
    let mut fleet = Fleet::join("web", 2).expect("fleet");
    assert_eq!(fleet.fleet_size(), 2);
    assert!(fleet.accepts::<Lanes>());
    assert!(fleet.accepts::<OtherLanes>());
    assert!(!fleet.accepts::<OddLanes>());
    let id = fleet.publish_notified::<Lanes>(1, 0, Bytes::from_static(b"a"));
    assert_eq!(&fleet.read(id).expect("retained").payload[..], b"a");
    let ids = fleet.publish_batch_notified::<Lanes>(1, 0, vec![Bytes::from_static(b"b")]);
    assert_eq!(ids, vec![NetId64::make(40, 0, 1)]);
    assert!(fleet.accepts::<Lanes>());
    assert!(!fleet.accepts::<OtherLanes>());
}
