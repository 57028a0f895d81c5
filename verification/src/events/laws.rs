//! What holds of every event bus.
use vstd::prelude::*;
use vstd::utf8::*;

use crate::events::protocol::{
    event_frame, law_event_is_read_where_its_frame_stands, law_event_round_trip, parts,
    FRAME_KIND_EVENT,
};
use crate::events::{event_of, events_of, lag, of_topic, EventView};
use crate::fleet::cursor::{lane_heads, lanes_frames};
use crate::fleet::laws::{
    behind, law_poll_accounts_for_every_counter, law_poll_at_head_is_empty, law_publish_then_poll,
};
use crate::ring::{FrameView, RingTopology, RingView};
use crate::selection::{
    ascending, lemma_filter_joined, lemma_filter_places, lemma_meant, lemma_no_more_places,
    lemma_places, meant, meant_at, places_where,
};

verus! {

/// A subscriber at the head of every lane reads exactly the event that is
/// published next, with its topic, its payload and its time, and lags behind nothing.
pub proof fn law_published_event_is_polled(
    ring: RingView,
    node: u16,
    topic: Seq<char>,
    payload: Seq<u8>,
    now_ms: u64,
)
    requires
        ring.wf(),
        ring.spec.topology == RingTopology::PerNode,
        node < ring.lanes.len(),
        ring.lanes[node as int].head < 0x100_0000_0000,
        encode_utf8(topic).len() <= u16::MAX,
        payload.len() <= u16::MAX,
    ensures
        ({
            let frame = ring.next_frame(
                node,
                FRAME_KIND_EVENT,
                now_ms,
                event_frame(encode_utf8(topic), payload, now_ms),
            );
            let after = ring.append(ring.spec.lane_of(node), frame);
            let positions = lane_heads(ring);
            let frames = lanes_frames(after, positions, positions.len());
            &&& events_of(frames) == seq![
                EventView { id: frame.id, topic: topic, payload, timestamp_ms: now_ms },
            ]
            &&& lag(after, positions, (frames.len() - events_of(frames).len()) as nat) == 0
        }),
{
    let frame = ring.next_frame(
        node,
        FRAME_KIND_EVENT,
        now_ms,
        event_frame(encode_utf8(topic), payload, now_ms),
    );
    law_publish_then_poll(ring, node, frame);
    law_event_round_trip(encode_utf8(topic), payload, now_ms);
    encode_utf8_valid_utf8(topic);
    encode_utf8_decode_utf8(topic);
    let frames = seq![frame];
    assert(frames.drop_last() =~= Seq::<FrameView>::empty());
    assert(events_of(frames.drop_last()) =~= Seq::<EventView>::empty());
    assert(events_of(frames) =~= seq![event_of(frame)->0]);
}

/// A subscriber at the head of every lane reads no event, and lags behind
/// nothing.
pub proof fn law_head_sees_no_old_event(ring: RingView)
    requires
        ring.wf(),
        ring.spec.topology == RingTopology::PerNode,
    ensures
        ({
            let positions = lane_heads(ring);
            let frames = lanes_frames(ring, positions, positions.len());
            events_of(frames).len() == 0 && lag(ring, positions, frames.len()) == 0
        }),
{
    law_poll_at_head_is_empty(ring, ring.lanes.len());
}

/// What a poll of a topic gives: the polled events at the places where the topic is
/// the wanted one, character for character, and no others. They stand in the order in
/// which they were polled, each as often as it was polled.
pub proof fn law_topic_poll_gives_exactly_its_topic(
    events: Seq<EventView>,
    topic: Seq<char>,
) -> (places: Seq<int>)
    ensures
        ascending(places, events.len() as int),
        of_topic(events, topic).len() == places.len(),
        forall|i: int|
            0 <= i < places.len() ==> {
                let event = #[trigger] of_topic(events, topic)[i];
                &&& event == events[places[i]]
                &&& event.topic.len() == topic.len()
                &&& forall|c: int| 0 <= c < topic.len() ==> event.topic[c] == topic[c]
            },
        forall|p: int|
            0 <= p < events.len() && (#[trigger] events[p]).topic == topic ==> places.contains(p),
{
    let wanted = |event: EventView| event.topic == topic;
    lemma_places(events, wanted);
    lemma_filter_places(events, wanted);
    let places = places_where(events, wanted);
    assert forall|i: int| 0 <= i < places.len() implies {
        let event = #[trigger] of_topic(events, topic)[i];
        &&& event == events[places[i]]
        &&& event.topic == topic
    } by {
        assert(places.contains(places[i]));
        assert(wanted(events[places[i]]));
    }
    places
}

/// An event is in the answers to polls of two topics only where the topics are one.
pub proof fn law_topics_do_not_mix(
    events: Seq<EventView>,
    one: Seq<char>,
    other: Seq<char>,
    event: EventView,
)
    requires
        of_topic(events, one).contains(event),
        of_topic(events, other).contains(event),
    ensures
        one == other,
        events.contains(event),
{
    let places = law_topic_poll_gives_exactly_its_topic(events, one);
    let i = choose|i: int| 0 <= i < of_topic(events, one).len() && of_topic(events, one)[i] == event;
    assert(event.topic =~= one);
    let _ = law_topic_poll_gives_exactly_its_topic(events, other);
    let j = choose|j: int|
        0 <= j < of_topic(events, other).len() && of_topic(events, other)[j] == event;
    assert(event.topic =~= other);
    assert(events[places[i]] == event);
}

/// What two polls of a topic give, one after the other, is what one poll of both
/// stretches gives.
pub proof fn law_topic_polls_add_up(
    earlier: Seq<EventView>,
    later: Seq<EventView>,
    topic: Seq<char>,
)
    ensures
        of_topic(earlier + later, topic) == of_topic(earlier, topic) + of_topic(later, topic),
{
    lemma_filter_joined(earlier, later, |event: EventView| event.topic == topic);
}

/// What a poll gives of the frames that it meets: the events of those that are
/// events, in the order of the frames, and nothing of the others.
pub proof fn law_poll_gives_every_event(frames: Seq<FrameView>) -> (places: Seq<int>)
    ensures
        ascending(places, frames.len() as int),
        events_of(frames).len() == places.len(),
        forall|i: int|
            0 <= i < places.len() ==> event_of(frames[#[trigger] places[i]]) == Some(
                events_of(frames)[i],
            ),
        forall|p: int|
            0 <= p < frames.len() ==> (event_of(#[trigger] frames[p]) is Some
                <==> places.contains(p)),
{
    let meaning = |frame: FrameView| event_of(frame);
    lemma_meant(frames, meaning);
    lemma_events_are_meant(frames);
    meant_at(frames, meaning)
}

proof fn lemma_events_are_meant(frames: Seq<FrameView>)
    ensures
        events_of(frames) == meant(frames, |frame: FrameView| event_of(frame)),
    decreases frames.len(),
{
    if frames.len() > 0 {
        lemma_events_are_meant(frames.drop_last());
    }
}

/// A poll lags by every counter that it passes without giving an event, and by no
/// other: what it gives and what it lags by are together all that was published since
/// the cursor. The count stops at the largest `u64`.
pub proof fn law_lag_is_what_was_missed(ring: RingView, positions: Seq<u64>)
    ensures
        ({
            let frames = lanes_frames(ring, positions, positions.len());
            let events = events_of(frames);
            let missed = behind(ring, positions, positions.len()) - events.len();
            let lagged = lag(ring, positions, (frames.len() - events.len()) as nat);
            &&& 0 <= missed
            &&& missed <= u64::MAX ==> lagged == missed
            &&& missed > u64::MAX ==> lagged == u64::MAX
        }),
{
    let frames = lanes_frames(ring, positions, positions.len());
    law_poll_accounts_for_every_counter(ring, positions, positions.len());
    let places = law_poll_gives_every_event(frames);
    lemma_no_more_places(places, frames.len() as int);
}

/// A frame is an event exactly where the frame of the event stands at its beginning, in so
/// far as its topic is text; the id is that of the frame.
pub proof fn law_only_event_frames_are_events(frame: FrameView, event: EventView)
    requires
        encode_utf8(event.topic).len() <= u16::MAX,
        event.payload.len() <= u16::MAX,
    ensures
        frame.id == event.id && event_frame(
            encode_utf8(event.topic),
            event.payload,
            event.timestamp_ms,
        ).is_prefix_of(frame.payload) ==> event_of(frame) == Some(event),
        event_of(frame) == Some(event) ==> frame.id == event.id && exists|topic: Seq<u8>|
            #[trigger] event_frame(topic, event.payload, event.timestamp_ms).is_prefix_of(
                frame.payload,
            ) && (valid_utf8(topic) ==> topic == encode_utf8(event.topic)),
{
    let bytes = encode_utf8(event.topic);
    law_event_is_read_where_its_frame_stands(
        frame.payload,
        bytes,
        event.payload,
        event.timestamp_ms,
    );
    encode_utf8_valid_utf8(event.topic);
    encode_utf8_decode_utf8(event.topic);
    if event_of(frame) == Some(event) {
        let topic = (parts(frame.payload)->0).0;
        law_event_is_read_where_its_frame_stands(
            frame.payload,
            topic,
            event.payload,
            event.timestamp_ms,
        );
        if valid_utf8(topic) {
            decode_utf8_encode_utf8(topic);
        }
        assert(event_frame(topic, event.payload, event.timestamp_ms).is_prefix_of(frame.payload));
    }
}

} // verus!
