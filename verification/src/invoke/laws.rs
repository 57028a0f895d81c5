//! What holds of every invocation transport.
use vstd::prelude::*;
use vstd::string::*;
use vstd::utf8::*;

use crate::fleet::cursor::{lane_heads, lanes_frames};
use crate::fleet::laws::{behind, law_poll_accounts_for_every_counter, law_publish_then_poll};
use crate::id::{lemma_pack, node_of};
use crate::invoke::protocol::{
    invocation_frame, law_invocation_is_read_where_its_frame_stands, law_invocation_round_trip,
    parts, FRAME_KIND_INVOCATION,
};
use crate::fleet::{lemma_ring_fits, FleetView};
use crate::invoke::{
    invocation_of, invocations_of, is_submitted, lag, lemma_invocation_record, of_operation,
    submit_fault, Error, InvocationId, InvocationRecord, InvocationView, INVOCATION_RING_KIND,
};
use crate::ring::{FrameView, RingTopology, RingView};
use crate::selection::{
    ascending, lemma_filter_joined, lemma_filter_places, lemma_meant, lemma_no_more_places,
    lemma_places, meant, meant_at, places_where,
};
use crate::text::blank;

verus! {

/// A consumer at the head of every lane reads exactly the invocation that is
/// submitted next, under the id that the submission gave, and lags behind
/// nothing. The id names the submitting node.
pub proof fn law_submitted_invocation_is_polled(
    ring: RingView,
    node: u16,
    operation: Seq<char>,
    payload: Seq<u8>,
    now_ms: u64,
)
    requires
        ring.wf(),
        ring.spec.topology == RingTopology::PerNode,
        node < ring.lanes.len(),
        ring.lanes[node as int].head < 0x100_0000_0000,
        encode_utf8(operation).len() <= u16::MAX,
        payload.len() <= u32::MAX,
    ensures
        ({
            let frame = ring.next_frame(
                node,
                FRAME_KIND_INVOCATION,
                now_ms,
                invocation_frame(encode_utf8(operation), payload),
            );
            let after = ring.append(ring.spec.lane_of(node), frame);
            let positions = lane_heads(ring);
            let frames = lanes_frames(after, positions, positions.len());
            &&& node_of(frame.id.0) == node
            &&& invocations_of(frames) == seq![
                InvocationView { id: frame.id, operation, payload, submitted_at: now_ms },
            ]
            &&& lag(after, positions, (frames.len() - invocations_of(frames).len()) as nat) == 0
        }),
{
    let frame = ring.next_frame(
        node,
        FRAME_KIND_INVOCATION,
        now_ms,
        invocation_frame(encode_utf8(operation), payload),
    );
    lemma_pack(ring.kind, node, ring.lanes[node as int].head);
    law_publish_then_poll(ring, node, frame);
    law_invocation_round_trip(encode_utf8(operation), payload);
    encode_utf8_valid_utf8(operation);
    encode_utf8_decode_utf8(operation);
    let frames = seq![frame];
    assert(frames.drop_last() =~= Seq::<FrameView>::empty());
    assert(invocations_of(frames.drop_last()) =~= Seq::<InvocationView>::empty());
    assert(invocations_of(frames) =~= seq![invocation_of(frame)->0]);
}

/// What a poll of an operation gives: the polled invocations at the places where the
/// operation is the wanted one, character for character, and no others. They stand in
/// the order in which they were polled, each as often as it was polled.
pub proof fn law_operation_poll_gives_exactly_its_operation(
    invocations: Seq<InvocationView>,
    operation: Seq<char>,
) -> (places: Seq<int>)
    ensures
        ascending(places, invocations.len() as int),
        of_operation(invocations, operation).len() == places.len(),
        forall|i: int|
            0 <= i < places.len() ==> {
                let invocation = #[trigger] of_operation(invocations, operation)[i];
                &&& invocation == invocations[places[i]]
                &&& invocation.operation.len() == operation.len()
                &&& forall|c: int|
                    0 <= c < operation.len() ==> invocation.operation[c] == operation[c]
            },
        forall|p: int|
            0 <= p < invocations.len() && (#[trigger] invocations[p]).operation == operation
                ==> places.contains(p),
{
    let wanted = |invocation: InvocationView| invocation.operation == operation;
    lemma_places(invocations, wanted);
    lemma_filter_places(invocations, wanted);
    let places = places_where(invocations, wanted);
    assert forall|i: int| 0 <= i < places.len() implies {
        let invocation = #[trigger] of_operation(invocations, operation)[i];
        &&& invocation == invocations[places[i]]
        &&& invocation.operation == operation
    } by {
        assert(places.contains(places[i]));
        assert(wanted(invocations[places[i]]));
    }
    places
}

/// An invocation is in the answers to polls of two operations only where the
/// operations are one.
pub proof fn law_operations_do_not_mix(
    invocations: Seq<InvocationView>,
    one: Seq<char>,
    other: Seq<char>,
    invocation: InvocationView,
)
    requires
        of_operation(invocations, one).contains(invocation),
        of_operation(invocations, other).contains(invocation),
    ensures
        one == other,
        invocations.contains(invocation),
{
    let places = law_operation_poll_gives_exactly_its_operation(invocations, one);
    let first = of_operation(invocations, one);
    let i = choose|i: int| 0 <= i < first.len() && first[i] == invocation;
    assert(first[i].operation =~= one);
    let _ = law_operation_poll_gives_exactly_its_operation(invocations, other);
    let second = of_operation(invocations, other);
    let j = choose|j: int| 0 <= j < second.len() && second[j] == invocation;
    assert(second[j].operation =~= other);
    assert(invocations[places[i]] == invocation);
}

/// What two polls of an operation give, one after the other, is what one poll of both
/// stretches gives.
pub proof fn law_operation_polls_add_up(
    earlier: Seq<InvocationView>,
    later: Seq<InvocationView>,
    operation: Seq<char>,
)
    ensures
        of_operation(earlier + later, operation) == of_operation(earlier, operation)
            + of_operation(later, operation),
{
    lemma_filter_joined(
        earlier,
        later,
        |invocation: InvocationView| invocation.operation == operation,
    );
}

/// What a poll gives of the frames that it meets: the invocations of those that are
/// invocations, in the order of the frames, and nothing of the others.
pub proof fn law_poll_gives_every_invocation(frames: Seq<FrameView>) -> (places: Seq<int>)
    ensures
        ascending(places, frames.len() as int),
        invocations_of(frames).len() == places.len(),
        forall|i: int|
            0 <= i < places.len() ==> invocation_of(frames[#[trigger] places[i]]) == Some(
                invocations_of(frames)[i],
            ),
        forall|p: int|
            0 <= p < frames.len() ==> (invocation_of(#[trigger] frames[p]) is Some
                <==> places.contains(p)),
{
    let meaning = |frame: FrameView| invocation_of(frame);
    lemma_meant(frames, meaning);
    lemma_invocations_are_meant(frames);
    meant_at(frames, meaning)
}

proof fn lemma_invocations_are_meant(frames: Seq<FrameView>)
    ensures
        invocations_of(frames) == meant(frames, |frame: FrameView| invocation_of(frame)),
    decreases frames.len(),
{
    if frames.len() > 0 {
        lemma_invocations_are_meant(frames.drop_last());
    }
}

/// A poll lags by every counter that it passes without giving an invocation, and by no
/// other: what it gives and what it lags by are together all that was published since
/// the cursor. The count stops at the largest `u64`.
pub proof fn law_lag_is_what_was_missed(ring: RingView, positions: Seq<u64>)
    ensures
        ({
            let frames = lanes_frames(ring, positions, positions.len());
            let invocations = invocations_of(frames);
            let missed = behind(ring, positions, positions.len()) - invocations.len();
            let lagged = lag(ring, positions, (frames.len() - invocations.len()) as nat);
            &&& 0 <= missed
            &&& missed <= u64::MAX ==> lagged == missed
            &&& missed > u64::MAX ==> lagged == u64::MAX
        }),
{
    let frames = lanes_frames(ring, positions, positions.len());
    law_poll_accounts_for_every_counter(ring, positions, positions.len());
    let places = law_poll_gives_every_invocation(frames);
    lemma_no_more_places(places, frames.len() as int);
}

/// What a submission does: a consumer that was at the head of every lane reads exactly
/// this invocation, under the id that the submission gave, which names the submitting
/// node. The other rings stay as they are.
pub proof fn law_submit_then_poll(
    before: FleetView,
    operation: Seq<char>,
    payload: Seq<u8>,
    now_ms: u64,
    after: FleetView,
    id: InvocationId,
    other: u8,
)
    requires
        before.wf(),
        before.usable::<InvocationRecord>(),
        before.own_lane::<InvocationRecord>().head < 0x100_0000_0000,
        encode_utf8(operation).len() <= u16::MAX,
        payload.len() <= u32::MAX,
        is_submitted(before, encode_utf8(operation), payload, now_ms, after, id),
    ensures
        ({
            let positions = lane_heads(before.ring::<InvocationRecord>());
            let ring = after.ring::<InvocationRecord>();
            let frames = lanes_frames(ring, positions, positions.len());
            &&& invocations_of(frames) == seq![
                InvocationView { id: id.0, operation, payload, submitted_at: now_ms },
            ]
            &&& lag(ring, positions, (frames.len() - 1) as nat) == 0
            &&& node_of(id.0.0) == before.node
        }),
        other != INVOCATION_RING_KIND && before.rings.contains_key(other)
            ==> after.rings.contains_key(other) && after.rings[other] == before.rings[other],
        after.node == before.node,
        after.capacity == before.capacity,
{
    lemma_invocation_record();
    lemma_ring_fits::<InvocationRecord>(before);
    law_submitted_invocation_is_polled(
        before.ring::<InvocationRecord>(),
        before.node,
        operation,
        payload,
        now_ms,
    );
}

/// Which submissions are accepted: those whose operation is not blank, with room for the
/// whole frame.
pub proof fn law_submissions_are_accepted_where_they_fit(operation: &str, payload: Seq<u8>)
    ensures
        submit_fault(operation, payload) is None <==> !blank(operation@)
            && operation.spec_bytes().len() < 65_536 && 6 + operation.spec_bytes().len()
            + payload.len() <= 8_192,
        blank(operation@) ==> submit_fault(operation, payload) == Some(Error::EmptyOperation),
{
}

/// A frame is an invocation exactly where it is of the right class and, byte for byte, the
/// frame of the invocation; the id and the time are those of the frame.
pub proof fn law_only_invocation_frames_are_invocations(
    frame: FrameView,
    invocation: InvocationView,
)
    requires
        encode_utf8(invocation.operation).len() <= u16::MAX,
        invocation.payload.len() <= u32::MAX,
    ensures
        invocation_of(frame) == Some(invocation) <==> {
            &&& frame.kind == 1
            &&& frame.id == invocation.id
            &&& frame.ver == invocation.submitted_at
            &&& frame.payload == invocation_frame(
                encode_utf8(invocation.operation),
                invocation.payload,
            )
        },
{
    let bytes = encode_utf8(invocation.operation);
    law_invocation_is_read_where_its_frame_stands(frame.payload, bytes, invocation.payload);
    encode_utf8_valid_utf8(invocation.operation);
    encode_utf8_decode_utf8(invocation.operation);
    if invocation_of(frame) == Some(invocation) {
        let operation = (parts(frame.payload)->0).0;
        decode_utf8_encode_utf8(operation);
        assert(operation == bytes);
    }
}

} // verus!
