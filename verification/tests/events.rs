use orbitive::events::{
    encode_frame, DefaultEventLayout, Error, EventLayout, FleetEventBus, FleetEventCursor,
    EVENT_PAYLOAD_MAX, EVENT_RING_CAPACITY, EVENT_RING_KIND, HEADER_LEN,
};
use orbitive::fleet::{Fleet, NodeId};
use orbitive::ring::RingTopology;
use orbitive::OrbitTyped;

#[test]
fn polls_events_since_cursor() {
    let mut fleet = Fleet::join("event_poll", 1).expect("fleet");
    let bus = FleetEventBus::new();
    let mut cursor = bus.cursor_from_start();

    bus.publish(&mut fleet, "worker.booted", b"w1", 1)
        .expect("publish first");
    bus.publish(&mut fleet, "cache.reset", b"all", 2)
        .expect("publish second");

    let poll = bus.poll(&fleet, &mut cursor);
    assert_eq!(poll.lagged, 0);
    assert_eq!(poll.events.len(), 2);
    assert_eq!(poll.events[0].topic, "worker.booted");
    assert_eq!(poll.events[0].payload, b"w1");
    assert_eq!(poll.events[1].topic, "cache.reset");
    assert_eq!(poll.events[1].payload, b"all");
    assert_eq!(poll.events[1].timestamp_ms, 2);

    assert!(bus.poll(&fleet, &mut cursor).is_empty());
}

#[test]
fn cursor_at_head_only_reads_future_events() {
    let mut fleet = Fleet::join("event_head", 1).expect("fleet");
    let bus = FleetEventBus::new();

    bus.publish(&mut fleet, "old", b"ignored", 1)
        .expect("publish old");
    let mut cursor = bus.cursor_at_head(&fleet);
    bus.publish(&mut fleet, "new", b"seen", 2)
        .expect("publish new");

    let poll = bus.poll(&fleet, &mut cursor);
    assert_eq!(poll.events.len(), 1);
    assert_eq!(poll.events[0].topic, "new");
}

#[test]
fn topic_filter_advances_cursor() {
    let mut fleet = Fleet::join("event_topic", 1).expect("fleet");
    let bus = FleetEventBus::new();
    let mut cursor = bus.cursor_from_start();

    bus.publish(&mut fleet, "a", b"1", 1).expect("publish a");
    bus.publish(&mut fleet, "b", b"2", 1).expect("publish b");

    let poll = bus.poll_topic(&fleet, &mut cursor, "b");
    assert_eq!(poll.events.len(), 1);
    assert_eq!(poll.events[0].payload, b"2");
    assert!(bus.poll(&fleet, &mut cursor).is_empty());
}

#[test]
fn event_frame_contract_uses_the_compile_time_geometry() {
    let expected = 512;
    assert_eq!(EVENT_PAYLOAD_MAX, expected);

    let largest_payload = vec![0_u8; EVENT_PAYLOAD_MAX - HEADER_LEN - 1];
    let frame = encode_frame(b"x", &largest_payload, 0).expect("frame must fit");
    assert_eq!(frame.len(), EVENT_PAYLOAD_MAX);

    let oversized_payload = vec![0_u8; largest_payload.len() + 1];
    assert!(matches!(
        encode_frame(b"x", &oversized_payload, 0),
        Err(Error::FrameTooLarge {
            max_payload,
            ..
        }) if max_payload == expected
    ));
}

#[test]
fn reports_lag_when_cursor_falls_behind_capacity() {
    let mut fleet = Fleet::join("event_lag", 1).expect("fleet");
    let bus = FleetEventBus::new();
    let mut cursor = bus.cursor_from_start();

    for value in 0..=EVENT_RING_CAPACITY {
        bus.publish(&mut fleet, "n", value.to_string().as_bytes(), 0)
            .expect("publish event");
    }

    let poll = bus.poll(&fleet, &mut cursor);
    assert_eq!(poll.lagged, 1);
    assert_eq!(poll.events.len(), EVENT_RING_CAPACITY);
    assert_eq!(poll.events[0].payload, b"1");
}

#[derive(Clone)]
struct RawEvents;

impl OrbitTyped for RawEvents {
    const KIND: u8 = EVENT_RING_KIND;
    const RING_CAPACITY: usize = 1_024;
    const RING_PAYLOAD_CAPACITY: usize = 512;
    const RING_TOPOLOGY: RingTopology = RingTopology::PerNode;
}

#[test]
fn two_nodes_publish_into_independent_lanes() {
    let mut fleet = Fleet::join_as("event_lanes", 2, NodeId::new(0)).expect("fleet");
    let bus = FleetEventBus::new();
    let mut cursor = bus.cursor_at_head(&fleet);
    bus.publish(&mut fleet, "test.parent_also", b"hello-from-parent", 0)
        .expect("parent publish");
    let frame = encode_frame(b"test.child_published", b"hello-from-child", 0).expect("frame");
    fleet.ring::<RawEvents>().write(NodeId::new(1), 1, 0, frame);

    let poll = bus.poll(&fleet, &mut cursor);
    assert_eq!(poll.lagged, 0);
    assert_eq!(poll.events.len(), 2);
    assert_eq!(poll.events[0].id.node(), 0);
    assert_eq!(poll.events[0].id.counter(), 0);
    assert_eq!(poll.events[0].topic, "test.parent_also");
    assert_eq!(poll.events[1].id.node(), 1);
    assert_eq!(poll.events[1].id.counter(), 0);
    assert_eq!(poll.events[1].topic, "test.child_published");
    assert_eq!(poll.events[1].payload, b"hello-from-child");
    assert_eq!(cursor.next_counter(), 1);
}

#[test]
fn frames_that_are_no_events_count_as_lag() {
    let mut fleet = Fleet::join("event_foreign", 1).expect("fleet");
    let bus = FleetEventBus::new();
    assert_eq!(bus.node_id(&fleet).get(), 0);
    let mut cursor = FleetEventCursor::from_counter(0);
    assert_eq!(cursor.next_counter(), 0);
    let ring = fleet.ring::<RawEvents>();
    ring.write(NodeId::new(0), 1, 0, bytes::Bytes::from_static(b"short"));
    // A topic that is not UTF-8 is read with replacements.
    let odd = encode_frame(b"\xFFtopic", b"p", 7).expect("frame");
    ring.write(NodeId::new(0), 1, 0, odd);
    // What stands behind the payload means nothing.
    let mut longer = encode_frame(b"t", b"pp", 8).expect("frame").to_vec();
    longer.extend_from_slice(b"tail");
    ring.write(NodeId::new(0), 1, 0, bytes::Bytes::from(longer));

    let poll = bus.poll(&fleet, &mut cursor);
    assert_eq!(poll.lagged, 1);
    assert_eq!(poll.events.len(), 2);
    assert_eq!(poll.events[0].topic, "\u{FFFD}topic");
    assert_eq!(poll.events[1].topic, "t");
    assert_eq!(poll.events[1].payload, b"pp");

    bus.reset_ring(&mut fleet);
    assert!(bus.poll(&fleet, &mut bus.cursor_from_start()).is_empty());
}

struct SmallLayout;

impl EventLayout for SmallLayout {
    const RING_KIND: u8 = 70;
    const RING_CAPACITY: usize = 2;
    const RING_PAYLOAD_CAPACITY: usize = 32;
    const RING_TOPOLOGY: RingTopology = RingTopology::PerNode;
}

struct SharedLayout;

impl EventLayout for SharedLayout {
    const RING_KIND: u8 = 71;
    const RING_CAPACITY: usize = 2;
    const RING_PAYLOAD_CAPACITY: usize = 32;
    const RING_TOPOLOGY: RingTopology = RingTopology::Shared;
}

struct OddLayout;

impl EventLayout for OddLayout {
    const RING_KIND: u8 = 72;
    const RING_CAPACITY: usize = 3;
    const RING_PAYLOAD_CAPACITY: usize = 32;
    const RING_TOPOLOGY: RingTopology = RingTopology::PerNode;
}

struct NarrowLayout;

impl EventLayout for NarrowLayout {
    const RING_KIND: u8 = 73;
    const RING_CAPACITY: usize = 2;
    const RING_PAYLOAD_CAPACITY: usize = 11;
    const RING_TOPOLOGY: RingTopology = RingTopology::PerNode;
}

#[test]
fn another_layout_is_another_ring() {
    let mut fleet = Fleet::join("event_layout", 1).expect("fleet");
    let bus = FleetEventBus::<SmallLayout>::with_layout().expect("small bus");
    let default = FleetEventBus::<DefaultEventLayout>::with_layout().expect("default bus");
    let mut cursor = default.cursor_from_start();
    bus.publish(&mut fleet, "t", b"0123456789012345678", 0)
        .expect("fits exactly");
    assert_eq!(
        bus.publish(&mut fleet, "t", b"01234567890123456789", 0),
        Err(Error::FrameTooLarge {
            topic_len: 1,
            payload_len: 20,
            max_payload: 32
        })
    );
    assert!(default.poll(&fleet, &mut cursor).is_empty());
}

#[test]
fn unusable_layouts_are_refused() {
    assert_eq!(
        FleetEventBus::<SharedLayout>::with_layout().err(),
        Some(Error::InvalidLayout("the event ring must use per-node lanes"))
    );
    assert_eq!(
        FleetEventBus::<OddLayout>::with_layout().err(),
        Some(Error::InvalidLayout(
            "event-ring capacity must be a non-zero power of two"
        ))
    );
    assert_eq!(
        FleetEventBus::<NarrowLayout>::with_layout().err(),
        Some(Error::InvalidLayout(
            "event-ring payload cannot fit an event header"
        ))
    );
}

#[test]
fn event_errors_are_told_in_words() {
    assert_eq!(
        Error::FrameTooLarge {
            topic_len: 1,
            payload_len: 600,
            max_payload: 512
        }
        .to_string(),
        "orbit event frame too large: topic_len=1 payload_len=600 max_payload=512"
    );
    assert_eq!(
        Error::InvalidLayout("no").to_string(),
        "invalid event layout: no"
    );
}
