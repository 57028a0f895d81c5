use bytes::Bytes;
use orbitive::fleet::cursor::FleetLaneCursor;
use orbitive::fleet::shared::ShmFleet;
use orbitive::ring::cursor::{poll_ring, RingCursor, RingLoss};
use orbitive::ring::shm::layout::ShmError;
use orbitive::ring::shm::registry::check_reuse;
use orbitive::ring::shm::{check_batch, ShmRing};
use orbitive::ring::{Frame, RingSpec, RingTopology};
use orbitive::{Error, Fleet, NetId64, NodeId, OrbitTyped};

#[derive(Clone, Copy, Debug, PartialEq, Eq)]
struct CrossCounter(pub u64);

impl OrbitTyped for CrossCounter {
    const KIND: u8 = 41;
    const RING_CAPACITY: usize = 16;
    const RING_PAYLOAD_CAPACITY: usize = 8;
    const RING_TOPOLOGY: RingTopology = RingTopology::Shared;
}

#[derive(Clone)]
struct Lanes;

impl OrbitTyped for Lanes {
    const KIND: u8 = 42;
    const RING_CAPACITY: usize = 2;
    const RING_PAYLOAD_CAPACITY: usize = 4;
    const RING_TOPOLOGY: RingTopology = RingTopology::PerNode;
}

#[derive(Clone)]
struct OtherLanes;

impl OrbitTyped for OtherLanes {
    const KIND: u8 = 42;
    const RING_CAPACITY: usize = 4;
    const RING_PAYLOAD_CAPACITY: usize = 4;
    const RING_TOPOLOGY: RingTopology = RingTopology::PerNode;
}

fn publish_counter(fleet: &mut ShmFleet, value: CrossCounter) -> NetId64 {
    fleet.publish::<CrossCounter>(0, 0, Bytes::copy_from_slice(&value.0.to_le_bytes()))
}

fn load_counter(fleet: &ShmFleet) -> Option<CrossCounter> {
    let frame = fleet.read_head::<CrossCounter>()?;
    let bytes = <[u8; 8]>::try_from(frame.payload.as_ref()).ok()?;
    Some(CrossCounter(u64::from_le_bytes(bytes)))
}

fn segment_of(fleet: &ShmFleet, kind: u8) -> Vec<u8> {
    fleet.lookup(kind).expect("attached").segment()
}

fn texts(frames: &[Frame]) -> Vec<String> {
    frames
        .iter()
        .map(|frame| String::from_utf8(frame.payload.to_vec()).expect("text"))
        .collect()
}

#[test]
fn parent_publishes_child_loads() {
    let mut fleet = Fleet::join_shm("web", 4).expect("parent join_shm");
    assert!(fleet.is_shm());
    fleet.shm_ring::<CrossCounter>(None).expect("creates");
    publish_counter(&mut fleet, CrossCounter(0xCAFE_F00D));

    let mut child_fleet = Fleet::join_shm("web", 4).expect("child join_shm");
    child_fleet
        .shm_ring::<CrossCounter>(Some(segment_of(&fleet, 41)))
        .expect("attaches");
    assert_eq!(load_counter(&child_fleet), Some(CrossCounter(0xCAFE_F00D)));
}

#[test]
fn child_publishes_parent_loads() {
    let mut parent = Fleet::join_shm("web", 4).expect("parent join_shm");
    parent.shm_ring::<CrossCounter>(None).expect("creates");
    assert_eq!(load_counter(&parent), None);

    let mut child = Fleet::join_shm("web", 4).expect("child join_shm");
    child
        .shm_ring::<CrossCounter>(Some(segment_of(&parent, 41)))
        .expect("attaches");
    publish_counter(&mut child, CrossCounter(0xDEAD_BEEF));

    let mut later = Fleet::join_shm("web", 4).expect("parent join_shm");
    later
        .shm_ring::<CrossCounter>(Some(segment_of(&child, 41)))
        .expect("attaches");
    assert_eq!(load_counter(&later), Some(CrossCounter(0xDEAD_BEEF)));
}

#[test]
fn parent_writes_child_reads() {
    let spec = RingSpec::new(16, 32);
    let mut ring = ShmRing::open_or_create(7, spec, None).expect("parent open_or_create");
    let id = ring
        .write(NodeId::new(0), 0, 99, Bytes::from_static(b"hello-from-parent"))
        .expect("parent write");

    let child_ring = ShmRing::open_or_create(7, spec, Some(ring.segment())).expect("attaches");
    let frame = child_ring.read(id).expect("visible");
    assert_eq!(frame.id, id);
    assert_eq!(frame.ver, 99);
    assert_eq!(&frame.payload[..], b"hello-from-parent");
}

#[test]
fn child_writes_parent_reads() {
    let spec = RingSpec::new(16, 32);
    let parent = ShmRing::open_or_create(11, spec, None).expect("parent create empty segment");
    let mut child = ShmRing::open_or_create(11, spec, Some(parent.segment())).expect("attaches");
    assert!(!child.created());
    child
        .write(NodeId::new(2), 0, 7, Bytes::from_static(b"hello-from-child"))
        .expect("child write");

    let parent = ShmRing::open_or_create(11, spec, Some(child.segment())).expect("attaches");
    let frame = parent.read_head().expect("parent should see child's write");
    assert_eq!(frame.kind, 0);
    assert_eq!(frame.ver, 7);
    assert_eq!(&frame.payload[..], b"hello-from-child");
}

#[test]
fn ping_pong_two_writes_one_each_side() {
    let spec = RingSpec::new(16, 32);
    let mut parent = ShmRing::open_or_create(13, spec, None).expect("parent create");
    let parent_id = parent
        .write(NodeId::new(0), 0, 1, Bytes::from_static(b"ping"))
        .expect("parent write");

    let mut child = ShmRing::open_or_create(13, spec, Some(parent.segment())).expect("attaches");
    assert_eq!(&child.read(parent_id).expect("read ping").payload[..], b"ping");
    child
        .write(NodeId::new(2), 0, 2, Bytes::from_static(b"pong"))
        .expect("child write");

    let parent = ShmRing::open_or_create(13, spec, Some(child.segment())).expect("attaches");
    assert_eq!(parent.head(), 2, "two writes total");
    let head_frame = parent.read_head().expect("read pong");
    assert_eq!(&head_frame.payload[..], b"pong");
    let ping_frame = parent.read(parent_id).expect("read ping");
    assert_eq!(&ping_frame.payload[..], b"ping");
    assert_eq!(ping_frame.id.node(), 0);
    assert_eq!(head_frame.id.node(), 2);
}

#[test]
fn cursor_retries_a_claimed_slot_after_it_commits() {
    let spec = RingSpec::new(4, 16);
    let slot: usize = 64 + 64;
    let mut bytes = ShmRing::open_or_create(199, spec, None)
        .expect("create test ring")
        .segment();
    bytes[64..72].copy_from_slice(&1_u64.to_le_bytes());
    bytes[slot..slot + 8].copy_from_slice(&1_u64.to_le_bytes());

    let ring = ShmRing::open_or_create(199, spec, Some(bytes.clone())).expect("attaches");
    let mut cursor = RingCursor::from_start();
    let pending = poll_ring(&ring, &mut cursor);
    assert!(pending.is_empty());
    assert_eq!(cursor.next_counter(), 0);

    let payload = b"ready";
    bytes[slot + 8..slot + 16].copy_from_slice(&NetId64::make(199, 0, 0).raw().to_le_bytes());
    bytes[slot + 16..slot + 24].copy_from_slice(&7_u64.to_le_bytes());
    bytes[slot + 24..slot + 28].copy_from_slice(&(payload.len() as u32).to_le_bytes());
    bytes[slot + 28] = 1;
    bytes[slot + 32..slot + 37].copy_from_slice(payload);
    bytes[slot..slot + 8].copy_from_slice(&2_u64.to_le_bytes());

    let ring = ShmRing::open_or_create(199, spec, Some(bytes)).expect("attaches");
    let committed = poll_ring(&ring, &mut cursor);
    assert_eq!(committed.frames.len(), 1);
    assert_eq!(&committed.frames[0].payload[..], payload);
    assert_eq!(cursor.next_counter(), 1);
}

#[test]
fn per_node_head_ignores_a_writer_that_dies_before_commit() {
    let spec = RingSpec::per_node(4, 16);
    let mut bytes = ShmRing::open_or_create_for_fleet(198, spec, 2, None)
        .expect("create per-node test ring")
        .segment();
    let slot: usize = 64 + 2 * 64 + 4 * 64;
    bytes[slot..slot + 8].copy_from_slice(&1_u64.to_le_bytes());

    let mut replacement =
        ShmRing::open_or_create_for_fleet(198, spec, 2, Some(bytes)).expect("replacement attaches");
    assert_eq!(replacement.lane_head(NodeId::new(1)), 0);
    let id = replacement
        .write(NodeId::new(1), 1, 9, Bytes::from_static(b"recovered"))
        .expect("replacement commits");
    assert_eq!(id.counter(), 0);
    assert_eq!(replacement.lane_head(NodeId::new(1)), 1);
    assert_eq!(
        &replacement.read(id).expect("frame visible").payload[..],
        b"recovered"
    );
}

#[test]
fn the_newest_frame_is_not_an_older_one_in_its_slot() {
    let spec = RingSpec::new(2, 8);
    let mut ring = ShmRing::open_or_create(199, spec, None).expect("creates");
    for text in ["a", "b"] {
        ring.write(NodeId::new(0), 1, 0, Bytes::from(text)).expect("writes");
    }
    assert_eq!(&ring.read_head().expect("newest").payload[..], b"b");
    // A third counter is claimed, and nothing is committed for it yet.
    let mut bytes = ring.segment();
    bytes[64..72].copy_from_slice(&3_u64.to_le_bytes());
    let claimed = ShmRing::open_or_create(199, spec, Some(bytes)).expect("attaches");
    assert_eq!(claimed.head(), 3);
    assert!(claimed.read_head().is_none());
    assert_eq!(&claimed.read_at(2).expect("slot").payload[..], b"a");
}

#[test]
fn a_frame_is_found_under_its_own_id_only() {
    let mut fleet = Fleet::join_shm_as("web", 4, NodeId::new(2)).expect("joins");
    fleet.shm_ring::<CrossCounter>(None).expect("creates");
    let id = publish_counter(&mut fleet, CrossCounter(7));
    assert_eq!(id, NetId64::make(41, 2, 0));
    assert_eq!(fleet.read(id).expect("retained").id, id);
    assert!(fleet.read(NetId64::make(41, 1, 0)).is_none());
}

#[test]
fn a_batch_shows_when_it_is_whole() {
    let spec = RingSpec::per_node(4, 8);
    let node = NodeId::new(1);
    let mut ring = ShmRing::open_or_create_for_fleet(198, spec, 2, None).expect("creates");
    let batch = vec![Bytes::from_static(b"a"), Bytes::from_static(b"b")];
    let ids = ring.commit_batch(node, 1, 7, 0, &batch);
    assert_eq!(ids, vec![NetId64::make(198, 1, 0), NetId64::make(198, 1, 1)]);
    assert_eq!(ring.lane_head(node), 0);
    assert_eq!(&ring.read(ids[1]).expect("committed").payload[..], b"b");

    assert_eq!(ring.write_batch(node, 1, 7, batch), Ok(ids.clone()));
    assert_eq!(ring.lane_head(node), 2);
    assert_eq!(ring.lane_head(NodeId::new(0)), 0);
    assert_eq!(&ring.read(ids[0]).expect("committed").payload[..], b"a");
}

#[test]
fn batches_are_checked_against_the_ring() {
    let spec = RingSpec::new(2, 4);
    assert_eq!(check_batch(spec, &vec![Bytes::from_static(b"abcd"); 2]), Ok(()));
    assert_eq!(
        check_batch(spec, &vec![Bytes::new(); 3]),
        Err(ShmError::BatchTooLarge { len: 3, max: 2 })
    );
    assert_eq!(
        check_batch(
            spec,
            &vec![Bytes::from_static(b"abcde"), Bytes::from_static(b"abcdef")]
        ),
        Err(ShmError::PayloadTooLarge { len: 5, max: 4 })
    );
    assert_eq!(check_reuse(9, spec, spec), Ok(()));
    let other = RingSpec::new(4, 4);
    assert_eq!(
        check_reuse(9, spec, other),
        Err(ShmError::SpecReused {
            kind: 9,
            requested: spec,
            existing: other,
        })
    );
}

#[test]
fn only_members_join_a_shared_fleet() {
    let fleet = Fleet::join_shm_as("web", 3, NodeId::new(2)).expect("joins");
    assert_eq!(fleet.name(), "web");
    assert_eq!(fleet.fleet_capacity(), 3);
    assert_eq!(fleet.node_id(), NodeId::new(2));
    assert!(!Fleet::join("web", 3).expect("joins").is_shm());
    assert_eq!(Fleet::join_shm("web", 0).err(), Some(Error::EmptyFleet));
    assert_eq!(
        Fleet::join_shm_as("web", 3, NodeId::new(3)).err(),
        Some(Error::NodeOutsideFleet {
            node_id: 3,
            fleet_capacity: 3
        })
    );
}

#[test]
fn a_detached_ring_reads_as_an_empty_one() {
    let mut fleet = Fleet::join_shm_as("web", 2, NodeId::new(1)).expect("joins");
    assert_eq!(fleet.head::<Lanes>(), 0);
    assert!(fleet.read_head::<Lanes>().is_none());
    assert!(fleet.read_at::<Lanes>(0).is_none());
    assert!(fleet.read(NetId64::make(42, 1, 0)).is_none());
    assert_eq!(fleet.ring_capacity::<Lanes>(), 2);
    let mut cursor = FleetLaneCursor::from_counter(5);
    let poll = fleet.poll_lanes::<Lanes>(&mut cursor);
    assert!(poll.frames.is_empty());
    assert_eq!(cursor.minimum_next_counter(), 0);

    fleet.shm_ring::<Lanes>(None).expect("creates");
    assert_eq!(
        fleet.shm_ring::<OtherLanes>(None),
        Err(ShmError::SpecReused {
            kind: 42,
            requested: RingSpec::per_node(4, 4),
            existing: RingSpec::per_node(2, 4),
        })
    );
    fleet.publish::<Lanes>(1, 0, Bytes::from_static(b"a"));
    assert_eq!(fleet.head::<Lanes>(), 1);
    assert_eq!(fleet.head::<OtherLanes>(), 0);
    assert_eq!(fleet.ring_capacity::<OtherLanes>(), 4);
}

#[test]
fn a_notified_publication_changes_the_notification_word() {
    let mut fleet = Fleet::join_shm_as("web", 2, NodeId::new(1)).expect("joins");
    fleet.shm_ring::<Lanes>(None).expect("creates");
    fleet.publish::<Lanes>(1, 0, Bytes::from_static(b"a"));
    assert_eq!(fleet.lookup(42).expect("attached").notification(), 0);

    let id = fleet
        .publish_notified::<Lanes>(1, 0, Bytes::from_static(b"b"))
        .expect("publishes");
    assert_eq!(id, NetId64::make(42, 1, 1));
    assert_eq!(fleet.lookup(42).expect("attached").notification(), 1);

    assert_eq!(
        fleet.publish_notified::<Lanes>(1, 0, Bytes::from_static(b"large")),
        Err(ShmError::PayloadTooLarge { len: 5, max: 4 })
    );
    assert_eq!(fleet.lookup(42).expect("attached").notification(), 1);
    assert_eq!(fleet.head::<Lanes>(), 2);

    let ids = fleet
        .publish_batch_notified::<Lanes>(
            1,
            0,
            vec![Bytes::from_static(b"c"), Bytes::from_static(b"d")],
        )
        .expect("publishes");
    assert_eq!(ids, vec![NetId64::make(42, 1, 2), NetId64::make(42, 1, 3)]);
    assert_eq!(fleet.lookup(42).expect("attached").notification(), 2);
    assert_eq!(
        fleet.publish_batch_notified::<Lanes>(1, 0, Vec::new()),
        Ok(Vec::new())
    );
    assert_eq!(fleet.lookup(42).expect("attached").notification(), 2);
    assert_eq!(
        fleet.publish_batch_notified::<Lanes>(1, 0, vec![Bytes::new(); 3]),
        Err(ShmError::BatchTooLarge { len: 3, max: 2 })
    );
    fleet.reset_ring::<Lanes>();
    assert_eq!(fleet.head::<Lanes>(), 0);
    assert_eq!(fleet.lookup(42).expect("attached").notification(), 2);
}

#[test]
fn shared_lanes_are_walked_as_lanes_of_one_process() {
    let mut shared = Fleet::join_shm_as("web", 2, NodeId::new(1)).expect("joins");
    shared.shm_ring::<Lanes>(None).expect("creates");
    let mut local = Fleet::join_as("web", 2, NodeId::new(1)).expect("joins");
    let mut shared_cursor = shared.lane_cursor_at_head::<Lanes>();
    let mut local_cursor = local.lane_cursor_at_head::<Lanes>();

    let id = shared.publish::<Lanes>(1, 7, Bytes::from_static(b"a"));
    assert_eq!(local.publish::<Lanes>(1, 7, Bytes::from_static(b"a")), id);
    let frame = shared.read(id).expect("retained");
    assert_eq!(Some(&frame), local.read(id).as_ref());
    let poll = shared.poll_lanes::<Lanes>(&mut shared_cursor);
    assert_eq!(texts(&poll.frames), vec!["a"]);
    assert_eq!(poll, local.poll_lanes::<Lanes>(&mut local_cursor));

    for text in ["b", "c", "d"] {
        shared.publish::<Lanes>(1, 7, Bytes::from(text));
        local.publish::<Lanes>(1, 7, Bytes::from(text));
    }
    let poll = shared.poll_lanes::<Lanes>(&mut shared_cursor);
    assert_eq!(texts(&poll.frames), vec!["c", "d"]);
    assert_eq!(
        poll.loss,
        RingLoss {
            overwritten: 1,
            unavailable: 0
        }
    );
    assert_eq!(poll, local.poll_lanes::<Lanes>(&mut local_cursor));
    assert_eq!(shared_cursor, local_cursor);

    let mut cursor = shared.lane_cursor_from_start::<Lanes>();
    let poll = shared.poll_lanes::<Lanes>(&mut cursor);
    assert_eq!(texts(&poll.frames), vec!["c", "d"]);
    let mut cursor = shared.cursor_from_start::<Lanes>();
    let poll = shared.poll_ring::<Lanes>(&mut cursor);
    assert_eq!(poll.loss.overwritten, 2);

    let mut cursor = shared.cursor_at_head::<Lanes>();
    shared.publish_batch::<Lanes>(1, 0, vec![Bytes::from_static(b"e")]);
    let poll = shared.poll_ring::<Lanes>(&mut cursor);
    assert_eq!(texts(&poll.frames), vec!["e"]);
    assert_eq!(shared.next_ring_version::<Lanes>(), 1);
    assert_eq!(shared.current_ring_version::<Lanes>(), 1);
    assert_eq!(shared.next_id::<Lanes>(), NetId64::make(42, 1, 0));
    assert_eq!(shared.next_id::<Lanes>(), NetId64::make(42, 1, 1));
    assert_eq!(
        shared.lookup(42).expect("attached").read(NetId64::make(42, 0, 0)),
        None
    );
    assert_eq!(shared.read_lane_at::<Lanes>(NodeId::new(0), 0), None);
}
