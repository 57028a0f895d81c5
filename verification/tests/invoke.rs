use orbitive::fleet::{Fleet, NodeId};
use orbitive::invoke::subscription::InvocationSubscription;
use orbitive::invoke::{
    Error, InvocationBus, InvocationCodec, InvocationId, INVOCATION_PAYLOAD_MAX,
    INVOCATION_RING_CAPACITY,
};
use orbitive::{NetId64, OrbitEpoch};

#[derive(Debug, Eq, PartialEq)]
struct Ping(Vec<u8>);

impl InvocationCodec for Ping {
    const OPERATION: &'static str = "test.ping.v1";

    fn encode_invocation(&self) -> std::result::Result<Vec<u8>, String> {
        Ok(self.0.clone())
    }

    fn decode_invocation(payload: &[u8]) -> std::result::Result<Self, String> {
        Ok(Self(payload.to_vec()))
    }
}

#[derive(Debug, Eq, PartialEq)]
struct Refusing;

impl InvocationCodec for Refusing {
    const OPERATION: &'static str = "test.refusing.v1";

    fn encode_invocation(&self) -> std::result::Result<Vec<u8>, String> {
        Err("cannot encode".to_owned())
    }

    fn decode_invocation(_payload: &[u8]) -> std::result::Result<Self, String> {
        Err("cannot decode".to_owned())
    }
}

fn fleet(name: &str) -> Fleet {
    Fleet::join(name, 1).expect("fleet")
}

#[test]
fn typed_invocation_round_trips_with_origin_identity() {
    let mut fleet = fleet("invoke-roundtrip");
    let bus = InvocationBus::new();
    let mut cursor = bus.cursor_from_start(&fleet);

    let id = bus
        .submit_typed(&mut fleet, &Ping(b"hello".to_vec()), 1_000)
        .expect("submit");
    let poll = bus.poll(&fleet, &mut cursor);

    assert_eq!(poll.lagged, 0);
    assert_eq!(poll.invocations.len(), 1);
    assert_eq!(poll.invocations[0].id, id);
    assert_eq!(id.node(), bus.node_id(&fleet).get());
    assert_ne!(poll.invocations[0].submitted_at, OrbitEpoch::default());
    assert_eq!(
        poll.invocations[0].decode::<Ping>().expect("decode"),
        Ping(b"hello".to_vec())
    );
}

#[test]
fn operation_filter_advances_past_other_invocations() {
    let mut fleet = fleet("invoke-filter");
    let bus = InvocationBus::new();
    let mut cursor = bus.cursor_from_start(&fleet);

    bus.submit(&mut fleet, "other.v1", b"ignored", 1)
        .expect("other");
    bus.submit(&mut fleet, Ping::OPERATION, b"seen", 1)
        .expect("ping");

    let poll = bus.poll_operation(&fleet, &mut cursor, Ping::OPERATION);
    assert_eq!(poll.invocations.len(), 1);
    assert_eq!(poll.invocations[0].payload, b"seen");
    assert!(bus.poll(&fleet, &mut cursor).is_empty());
}

#[test]
fn rejects_invalid_and_oversized_envelopes() {
    let mut fleet = fleet("invoke-limits");
    let bus = InvocationBus::new();
    assert!(matches!(
        bus.submit(&mut fleet, " ", b"payload", 1),
        Err(Error::EmptyOperation)
    ));

    let payload = vec![0; INVOCATION_PAYLOAD_MAX];
    assert!(matches!(
        bus.submit(&mut fleet, "large.v1", &payload, 1),
        Err(Error::FrameTooLarge { .. })
    ));
}

#[test]
fn reports_overwritten_invocations_as_lag() {
    let mut fleet = fleet("invoke-lag");
    let bus = InvocationBus::new();
    let mut cursor = bus.cursor_from_start(&fleet);

    for sequence in 0..=INVOCATION_RING_CAPACITY {
        bus.submit(&mut fleet, "sequence.v1", &sequence.to_le_bytes(), 1)
            .expect("submit");
    }

    let poll = bus.poll(&fleet, &mut cursor);
    assert!(poll.lagged > 0);
    assert_eq!(poll.invocations.len(), INVOCATION_RING_CAPACITY);
}

#[test]
fn subscription_keeps_retained_invocations_after_reporting_lag() {
    let mut fleet = fleet("invoke-subscription-lag");
    let bus = InvocationBus::new();
    let mut subscription =
        InvocationSubscription::subscribe(&bus, &fleet, "sequence.v1").expect("subscribe");

    for sequence in 0..=INVOCATION_RING_CAPACITY {
        bus.submit(&mut fleet, "sequence.v1", &sequence.to_le_bytes(), 1)
            .expect("submit");
    }

    assert!(
        matches!(subscription.next(&bus, &fleet), Err(Error::Lagged(count)) if count > 0)
    );
    let invocation = subscription
        .next(&bus, &fleet)
        .expect("first retained invocation")
        .expect("there is one");
    assert_eq!(invocation.operation, "sequence.v1");
    assert_eq!(invocation.payload, 1usize.to_le_bytes());
}

#[test]
fn a_subscription_hands_out_what_it_waited_for() {
    let mut fleet = fleet("invoke-subscription");
    let bus = InvocationBus::new();
    bus.submit(&mut fleet, "a.v1", b"old", 1).expect("old");
    let mut subscription =
        InvocationSubscription::subscribe(&bus, &fleet, "a.v1").expect("subscribe");
    assert_eq!(subscription.next(&bus, &fleet), Ok(None));
    bus.submit(&mut fleet, "a.v1", b"1", 1).expect("first");
    bus.submit(&mut fleet, "b.v1", b"x", 1).expect("other");
    bus.submit(&mut fleet, "a.v1", b"2", 1).expect("second");
    let first = subscription.next(&bus, &fleet).unwrap().unwrap();
    let second = subscription.next(&bus, &fleet).unwrap().unwrap();
    assert_eq!((first.payload, second.payload), (b"1".to_vec(), b"2".to_vec()));
    assert_eq!(subscription.next(&bus, &fleet), Ok(None));
    assert_eq!(
        InvocationSubscription::subscribe(&bus, &fleet, "\u{3000}").err(),
        Some(Error::EmptyOperation)
    );
}

#[test]
fn operations_are_checked_before_frames() {
    let mut fleet = fleet("invoke-operations");
    let bus = InvocationBus::new();
    for blank in ["", " \t\n", "\u{a0}\u{2003}\u{85}"] {
        assert_eq!(
            bus.submit(&mut fleet, blank, b"p", 1),
            Err(Error::EmptyOperation)
        );
    }
    // A zero-width space is no white space.
    assert!(bus.submit(&mut fleet, "\u{200b}", b"p", 1).is_ok());
    let long = "o".repeat(65_536);
    assert_eq!(
        bus.submit(&mut fleet, &long, b"p", 1),
        Err(Error::OperationTooLong(65_536))
    );
    let largest = vec![1_u8; INVOCATION_PAYLOAD_MAX - 6 - 1];
    assert!(bus.submit(&mut fleet, "o", &largest, 1).is_ok());
}

#[test]
fn codecs_have_the_last_word() {
    let mut fleet = fleet("invoke-codecs");
    let bus = InvocationBus::new();
    assert_eq!(
        bus.submit_typed(&mut fleet, &Refusing, 1),
        Err(Error::Codec("cannot encode".to_owned()))
    );
    let mut cursor = bus.cursor_at_head(&fleet);
    bus.submit(&mut fleet, Refusing::OPERATION, b"x", 5)
        .expect("submit");
    let poll = bus.poll(&fleet, &mut cursor);
    let invocation = &poll.invocations[0];
    assert_eq!(
        invocation.decode::<Refusing>(),
        Err(Error::Codec("cannot decode".to_owned()))
    );
    assert_eq!(
        invocation.decode::<Ping>(),
        Err(Error::OperationMismatch {
            expected: "test.ping.v1",
            actual: "test.refusing.v1".to_owned()
        })
    );
    assert_eq!(invocation.submitted_at.as_unix_ms(), 5);
}

#[test]
fn frames_that_are_no_invocations_count_as_lag() {
    let mut fleet = Fleet::join_as("invoke-foreign", 2, NodeId::new(1)).expect("fleet");
    let bus = InvocationBus::new();
    let mut cursor = bus.cursor_from_start(&fleet);
    bus.submit(&mut fleet, "ok.v1", b"p", 1).expect("submit");
    let ring = fleet.ring::<orbitive::invoke::InvocationRecord>();
    // Another class, a frame that is too short, an operation that is not UTF-8,
    // and a frame with something behind its payload.
    ring.write(
        NodeId::new(0),
        2,
        1,
        bytes::Bytes::from_static(b"\x01\x00\x01\x00\x00\x00op"),
    );
    ring.write(NodeId::new(0), 1, 1, bytes::Bytes::from_static(b"\x01\x00"));
    ring.write(
        NodeId::new(0),
        1,
        1,
        bytes::Bytes::from_static(b"\x01\x00\x01\x00\x00\x00\xFFp"),
    );
    ring.write(
        NodeId::new(0),
        1,
        1,
        bytes::Bytes::from_static(b"\x01\x00\x01\x00\x00\x00opp"),
    );
    let poll = bus.poll(&fleet, &mut cursor);
    assert_eq!(poll.lagged, 4);
    assert_eq!(poll.invocations.len(), 1);
    assert_eq!(poll.invocations[0].id.node(), 1);
    bus.reset_ring(&mut fleet);
    assert!(bus
        .poll(&fleet, &mut bus.cursor_from_start(&fleet))
        .is_empty());
}

#[test]
fn invocation_ids_are_told_like_frame_ids() {
    let id = InvocationId::from_net_id(NetId64::make(241, 7, 12));
    assert_eq!(id.to_string(), "241:7:12");
    assert_eq!(id.net_id().to_string(), "241:7:12");
    assert_eq!(id.node(), 7);
}

#[test]
fn invocation_errors_are_told_in_words() {
    assert_eq!(
        Error::EmptyOperation.to_string(),
        "invocation operation cannot be empty"
    );
    assert_eq!(
        Error::OperationTooLong(70_000).to_string(),
        "invocation operation is too long: len=70000 max=65535"
    );
    assert_eq!(
        Error::FrameTooLarge {
            operation_len: 1,
            payload_len: 2,
            max: 3
        }
        .to_string(),
        "invocation frame is too large: operation_len=1 payload_len=2 max=3"
    );
    assert_eq!(
        Error::OperationMismatch {
            expected: "a",
            actual: "b".to_owned()
        }
        .to_string(),
        "invocation operation mismatch: expected a, got b"
    );
    assert_eq!(
        Error::Lagged(2).to_string(),
        "invocation subscription lagged by 2 frame(s)"
    );
    assert_eq!(
        Error::Codec("x".to_owned()).to_string(),
        "invocation codec failed: x"
    );
}
