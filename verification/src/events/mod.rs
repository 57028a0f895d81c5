//! Append-only event stream over one ring.
//!
//! One ring carries all topics, with one writer lane per fleet node. The topic
//! stands inside the frame. A subscriber keeps one position per lane and
//! assumes no order across nodes.
pub mod error;
pub mod laws;
pub mod layout;
pub mod protocol;

use std::marker::PhantomData;

use vstd::prelude::*;
use vstd::string::*;
use vstd::utf8::*;

use crate::codec::to_vec;
use crate::events::layout::{
    layout_fault, lemma_default_layout, lemma_event_record, validate, EventRecord,
};
use crate::events::protocol::{
    decode_frame, encode_within, event_frame, frame_fault, parts, FRAME_KIND_EVENT,
};
use crate::fleet::cursor::{
    lane_heads, lanes_frames, lanes_overwritten, lanes_unavailable, FleetLaneCursor, LaneCursorView,
};
use crate::fleet::rings::FleetRings;
use crate::fleet::{FleetView, NodeId};
use crate::id::NetId64;
use crate::numbers::min_of;
use crate::ring::{frame_views, Frame, FrameView, RingView};
use crate::text::{readable, text_lossy};
use crate::typed::declared;

verus! {

pub use crate::events::error::Error;
pub use crate::events::layout::{
    DefaultEventLayout, EventLayout, EVENT_PAYLOAD_MAX, EVENT_RING_CAPACITY, EVENT_RING_KIND,
    EVENT_RING_PAYLOAD_CAPACITY,
};
pub use crate::events::protocol::{encode_frame, HEADER_LEN};

/// One subscriber's position in every node lane.
#[derive(Debug, PartialEq, Eq)]
pub struct FleetEventCursor {
    inner: FleetLaneCursor,
}

impl View for FleetEventCursor {
    type V = LaneCursorView;

    closed spec fn view(&self) -> LaneCursorView {
        self.inner@
    }
}

impl Clone for FleetEventCursor {
    fn clone(&self) -> (copy: FleetEventCursor)
        ensures
            copy@ == self@,
    {
        FleetEventCursor { inner: self.inner.clone() }
    }
}

impl FleetEventCursor {
    /// Starts at the oldest history that is still there.
    pub fn from_start() -> (cursor: FleetEventCursor)
        ensures
            cursor@ == (LaneCursorView { positions: Seq::empty(), initial: 0 }),
    {
        FleetEventCursor { inner: FleetLaneCursor::from_counter(0) }
    }

    /// Starts at a known counter.
    pub fn from_counter(next_counter: u64) -> (cursor: FleetEventCursor)
        ensures
            cursor@ == (LaneCursorView { positions: Seq::empty(), initial: next_counter }),
    {
        FleetEventCursor { inner: FleetLaneCursor::from_counter(next_counter) }
    }

    /// The lowest next counter among the node lanes.
    pub fn next_counter(&self) -> (counter: u64)
        ensures
            self@.positions.len() == 0 ==> counter == self@.initial,
            self@.positions.len() > 0 ==> self@.positions.contains(counter),
            forall|i: int|
                0 <= i < self@.positions.len() ==> counter <= #[trigger] self@.positions[i],
    {
        self.inner.minimum_next_counter()
    }
}

/// One event.
#[derive(Debug, PartialEq, Eq)]
pub struct FleetEvent {
    pub id: NetId64,
    pub topic: String,
    pub payload: Vec<u8>,
    pub timestamp_ms: u64,
}

/// What an event says.
#[verifier::ext_equal]
pub struct EventView {
    pub id: NetId64,
    pub topic: Seq<char>,
    pub payload: Seq<u8>,
    pub timestamp_ms: u64,
}

impl View for FleetEvent {
    type V = EventView;

    open spec fn view(&self) -> EventView {
        EventView {
            id: self.id,
            topic: self.topic@,
            payload: self.payload@,
            timestamp_ms: self.timestamp_ms,
        }
    }
}

/// What events say.
pub open spec fn event_views(events: Seq<FleetEvent>) -> Seq<EventView> {
    events.map_values(|event: FleetEvent| event@)
}

/// The event of a frame, if it is one.
pub open spec fn event_of(frame: FrameView) -> Option<EventView> {
    match parts(frame.payload) {
        Some((topic, payload, timestamp_ms)) => Some(
            EventView { id: frame.id, topic: readable(topic), payload, timestamp_ms },
        ),
        None => None,
    }
}

/// The events of frames, in order.
pub open spec fn events_of(frames: Seq<FrameView>) -> Seq<EventView>
    decreases frames.len(),
{
    if frames.len() == 0 {
        Seq::empty()
    } else {
        match event_of(frames.last()) {
            Some(event) => events_of(frames.drop_last()).push(event),
            None => events_of(frames.drop_last()),
        }
    }
}

/// The events with a topic, in order.
pub open spec fn of_topic(events: Seq<EventView>, topic: Seq<char>) -> Seq<EventView> {
    events.filter(|event: EventView| event.topic == topic)
}

/// The event of a frame, if it is one.
pub fn event_in(frame: &Frame) -> (event: Option<FleetEvent>)
    ensures
        match event {
            Some(event) => event_of(frame@) == Some(event@),
            None => event_of(frame@) is None,
        },
{
    match decode_frame(&frame.payload) {
        Some(decoded) => Some(
            FleetEvent {
                id: frame.id,
                topic: text_lossy(decoded.topic),
                payload: to_vec(decoded.payload),
                timestamp_ms: decoded.timestamp_ms,
            },
        ),
        None => None,
    }
}

/// Result of polling an event cursor.
#[derive(Debug, PartialEq, Eq)]
pub struct FleetEventPoll {
    pub events: Vec<FleetEvent>,
    /// Counters that gave no event: overwritten, unavailable, or not an event.
    pub lagged: u64,
}

impl FleetEventPoll {
    /// True when there was nothing new and nothing was missed.
    pub fn is_empty(&self) -> (empty: bool)
        ensures
            empty == (self.events@.len() == 0 && self.lagged == 0),
    {
        self.events.len() == 0 && self.lagged == 0
    }
}

/// How many counters gave no event, up to the largest `u64`: those that were
/// overwritten, those that were unavailable and the frames that are no events.
pub open spec fn lag(ring: RingView, positions: Seq<u64>, other: nat) -> int {
    min_of(
        min_of(
            min_of(lanes_overwritten(ring, positions, positions.len()), u64::MAX as int) + min_of(
                lanes_unavailable(ring, positions, positions.len()),
                u64::MAX as int,
            ),
            u64::MAX as int,
        ) + other,
        u64::MAX as int,
    )
}

/// The fleet's event bus.
#[derive(Debug)]
pub struct FleetEventBus<L: EventLayout> {
    layout: PhantomData<L>,
}

/// True when a bus of this layout can be used with the fleet.
pub open spec fn ready<L: EventLayout>(fleet: FleetView) -> bool {
    layout_fault::<L>() is None && fleet.usable::<EventRecord<L>>()
}

impl FleetEventBus<DefaultEventLayout> {
    /// The bus over the default ring.
    pub fn new() -> (bus: FleetEventBus<DefaultEventLayout>)
        ensures
            bus.valid(),
            declared::<EventRecord<DefaultEventLayout>>().valid(),
    {
        proof {
            lemma_default_layout();
        }
        FleetEventBus { layout: PhantomData }
    }
}

impl<L: EventLayout> FleetEventBus<L> {
    /// The bus has a layout that can be used.
    pub open spec fn valid(&self) -> bool {
        layout_fault::<L>() is None
    }

    /// A bus over the ring of a layout.
    pub fn with_layout() -> (bus: Result<FleetEventBus<L>, Error>)
        ensures
            match layout_fault::<L>() {
                Some(fault) => bus matches Err(Error::InvalidLayout(message)) && message@ == fault,
                None => {
                    &&& bus is Ok
                    &&& bus->Ok_0.valid()
                    &&& declared::<EventRecord<L>>().valid()
                },
            },
    {
        proof {
            lemma_event_record::<L>();
        }
        match validate::<L>() {
            Ok(_) => Ok(FleetEventBus { layout: PhantomData }),
            Err(error) => Err(error),
        }
    }

    /// The node that publishes.
    pub fn node_id<F: FleetRings>(&self, fleet: &F) -> (node: NodeId)
        ensures
            node.0 == fleet.held().node,
    {
        fleet.node_id()
    }

    /// A cursor behind every event that is in the ring.
    pub fn cursor_at_head<F: FleetRings>(&self, fleet: &F) -> (cursor: FleetEventCursor)
        requires
            fleet.sound(),
            ready::<L>(fleet.held()),
        ensures
            cursor@ == (LaneCursorView {
                positions: lane_heads(fleet.held().ring::<EventRecord<L>>()),
                initial: 0,
            }),
            cursor@.fits(fleet.held().capacity),
    {
        proof {
            lemma_event_record::<L>();
        }
        FleetEventCursor { inner: fleet.lane_cursor_at_head::<EventRecord<L>>() }
    }

    /// A cursor that replays the history that is still in the ring.
    pub fn cursor_from_start(&self) -> (cursor: FleetEventCursor)
        ensures
            cursor@ == (LaneCursorView { positions: Seq::empty(), initial: 0 }),
    {
        FleetEventCursor::from_start()
    }

    /// Clears the ring.
    pub fn reset_ring<F: FleetRings>(&self, fleet: &mut F)
        requires
            old(fleet).sound(),
            ready::<L>(old(fleet).held()),
        ensures
            final(fleet).sound(),
            ready::<L>(final(fleet).held()),
            final(fleet).held() == old(fleet).held().with_ring::<EventRecord<L>>(
                RingView::blank(
                    L::RING_KIND,
                    declared::<EventRecord<L>>(),
                    old(fleet).held().capacity as nat,
                ),
            ),
    {
        proof {
            lemma_event_record::<L>();
        }
        fleet.reset_ring::<EventRecord<L>>();
    }

    /// Publishes an event under a topic, at a time.
    pub fn publish<F: FleetRings>(
        &self,
        fleet: &mut F,
        topic: &str,
        payload: &[u8],
        now_ms: u64,
    ) -> (id: Result<NetId64, Error>)
        requires
            old(fleet).sound(),
            ready::<L>(old(fleet).held()),
        ensures
            final(fleet).sound(),
            ready::<L>(final(fleet).held()),
            match frame_fault(topic.spec_bytes().len(), payload@.len(), L::RING_PAYLOAD_CAPACITY) {
                Some(error) => {
                    &&& id == Err::<NetId64, Error>(error)
                    &&& final(fleet).held() == old(fleet).held()
                },
                None => {
                    let ring = old(fleet).held().ring::<EventRecord<L>>();
                    let frame = ring.next_frame(
                        old(fleet).held().node,
                        FRAME_KIND_EVENT,
                        now_ms,
                        event_frame(topic.spec_bytes(), payload@, now_ms),
                    );
                    &&& id == Ok::<NetId64, Error>(frame.id)
                    &&& final(fleet).held() == old(fleet).held().with_ring::<EventRecord<L>>(
                        ring.append(ring.spec.lane_of(old(fleet).held().node), frame),
                    )
                },
            },
    {
        proof {
            lemma_event_record::<L>();
        }
        match encode_within(topic.as_bytes(), payload, now_ms, L::RING_PAYLOAD_CAPACITY) {
            Ok(frame) => Ok(fleet.publish_notified::<EventRecord<L>>(FRAME_KIND_EVENT, now_ms, frame)),
            Err(error) => Err(error),
        }
    }

    /// Reads all events since the cursor, and moves it to the ring's head.
    pub fn poll<F: FleetRings>(
        &self,
        fleet: &F,
        cursor: &mut FleetEventCursor,
    ) -> (poll: FleetEventPoll)
        requires
            fleet.sound(),
            ready::<L>(fleet.held()),
            old(cursor)@.fits(fleet.held().capacity),
        ensures
            ({
                let ring = fleet.held().ring::<EventRecord<L>>();
                let positions = old(cursor)@.begin(fleet.held().capacity);
                let frames = lanes_frames(ring, positions, positions.len());
                let events = events_of(frames);
                &&& event_views(poll.events@) == events
                &&& poll.lagged == lag(ring, positions, (frames.len() - events.len()) as nat)
                &&& final(cursor)@ == (LaneCursorView {
                    positions: lane_heads(ring),
                    initial: old(cursor)@.initial,
                })
            }),
            final(cursor)@.fits(fleet.held().capacity),
    {
        proof {
            lemma_event_record::<L>();
        }
        let raw = fleet.poll_lanes::<EventRecord<L>>(&mut cursor.inner);
        let ghost frames = frame_views(raw.frames@);
        let missed: u64 = raw.loss.total();
        let mut lagged: u64 = missed;
        let mut events: Vec<FleetEvent> = Vec::new();
        let mut index: usize = 0;
        assert(frames.subrange(0, 0) =~= Seq::<FrameView>::empty());
        assert(event_views(events@) =~= Seq::<EventView>::empty());
        while index < raw.frames.len()
            invariant
                index <= raw.frames@.len(),
                frames == frame_views(raw.frames@),
                event_views(events@) == events_of(frames.subrange(0, index as int)),
                events@.len() <= index,
                lagged == min_of(missed + (index - events@.len()), u64::MAX as int),
            decreases raw.frames@.len() - index,
        {
            let ghost prefix = frames.subrange(0, index + 1);
            assert(prefix.drop_last() =~= frames.subrange(0, index as int));
            assert(prefix.last() == raw.frames@[index as int]@);
            let ghost before = events@;
            match event_in(&raw.frames[index]) {
                Some(event) => {
                    events.push(event);
                    assert(event_views(events@) =~= event_views(before).push(event@));
                },
                None => {
                    lagged = lagged.saturating_add(1);
                },
            }
            index = index + 1;
        }
        proof {
            assert(frames.subrange(0, frames.len() as int) =~= frames);
            assert(event_views(events@).len() == events@.len());
        }
        FleetEventPoll { events, lagged }
    }

    /// Reads the events of one topic since the cursor. The cursor moves past all
    /// events.
    pub fn poll_topic<F: FleetRings>(
        &self,
        fleet: &F,
        cursor: &mut FleetEventCursor,
        topic: &str,
    ) -> (poll: FleetEventPoll)
        requires
            fleet.sound(),
            ready::<L>(fleet.held()),
            old(cursor)@.fits(fleet.held().capacity),
        ensures
            ({
                let ring = fleet.held().ring::<EventRecord<L>>();
                let positions = old(cursor)@.begin(fleet.held().capacity);
                let frames = lanes_frames(ring, positions, positions.len());
                let events = events_of(frames);
                &&& event_views(poll.events@) == of_topic(events, topic@)
                &&& poll.lagged == lag(ring, positions, (frames.len() - events.len()) as nat)
                &&& final(cursor)@ == (LaneCursorView {
                    positions: lane_heads(ring),
                    initial: old(cursor)@.initial,
                })
            }),
            final(cursor)@.fits(fleet.held().capacity),
    {
        let poll = self.poll(fleet, cursor);
        FleetEventPoll { events: keep_topic(poll.events, topic), lagged: poll.lagged }
    }
}

/// Keeps the events of one topic.
fn keep_topic(events: Vec<FleetEvent>, topic: &str) -> (kept: Vec<FleetEvent>)
    ensures
        event_views(kept@) == of_topic(event_views(events@), topic@),
{
    let wanted: String = topic.to_owned();
    let ghost all = event_views(events@);
    let ghost len = events@.len();
    let mut rest: Vec<FleetEvent> = events;
    let mut kept: Vec<FleetEvent> = Vec::new();
    let ghost mut done: int = 0;
    assert(all.subrange(0, 0) =~= Seq::<EventView>::empty());
    assert(of_topic(all.subrange(0, 0), topic@) =~= Seq::<EventView>::empty()) by {
        reveal(Seq::filter);
    }
    assert(event_views(kept@) =~= Seq::<EventView>::empty());
    while rest.len() > 0
        invariant
            wanted@ == topic@,
            all.len() == len,
            0 <= done,
            rest@.len() + done == len,
            event_views(rest@) == all.subrange(done, len as int),
            event_views(kept@) == of_topic(all.subrange(0, done), topic@),
        decreases rest@.len(),
    {
        let ghost before = kept@;
        let ghost left = rest@;
        let event: FleetEvent = rest.remove(0);
        proof {
            assert(event@ == event_views(left)[0]);
            assert(event@ == all[done]);
            let longer = all.subrange(0, done + 1);
            assert(longer.drop_last() =~= all.subrange(0, done));
            assert(longer.last() == event@);
            assert(of_topic(longer, topic@) == if event@.topic == topic@ {
                of_topic(all.subrange(0, done), topic@).push(event@)
            } else {
                of_topic(all.subrange(0, done), topic@)
            }) by {
                reveal(Seq::filter);
            }
        }
        if event.topic == wanted {
            kept.push(event);
            assert(event_views(kept@) =~= event_views(before).push(event@));
        }
        proof {
            done = done + 1;
            assert forall|i: int| 0 <= i < rest@.len() implies event_views(rest@)[i] == all.subrange(
                done,
                len as int,
            )[i] by {
                assert(rest@[i] == left[i + 1]);
                assert(event_views(left)[i + 1] == all.subrange(done - 1, len as int)[i + 1]);
            }
            assert(event_views(rest@) =~= all.subrange(done, len as int));
        }
    }
    assert(all.subrange(0, len as int) =~= all);
    kept
}

} // verus!
