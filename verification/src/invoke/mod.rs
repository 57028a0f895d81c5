//! Bounded, fleet-local invocation transport over a ring of its own.
//!
//! The transport knows the identity of an invocation, its operation and its
//! payload. It does not know what an operation runs, or who runs it: a
//! publication proves only that a frame was committed.
pub mod error;
pub mod laws;
pub mod protocol;
pub mod subscription;

use vstd::arithmetic::power2::is_pow2;
use vstd::prelude::*;
use vstd::string::*;
use vstd::utf8::*;

use crate::codec::to_vec;
use crate::epoch::OrbitEpoch;
use crate::fleet::cursor::{
    lane_heads, lanes_frames, lanes_overwritten, lanes_unavailable, FleetLaneCursor, LaneCursorView,
};
use crate::fleet::rings::FleetRings;
use crate::fleet::{FleetView, NodeId};
use crate::id::{node_of, text_form, NetId64};
use crate::invoke::protocol::{
    decode_frame, encode_frame, frame_fault, invocation_frame, operation_fault, parts,
    validate_operation, FRAME_KIND_INVOCATION,
};
use crate::numbers::min_of;
use crate::ring::{frame_views, Frame, FrameView, RingSpec, RingTopology, RingView};
use crate::text::text_of;
use crate::typed::{declared, OrbitTyped};

verus! {

pub use crate::invoke::error::Error;

/// The kind of the invocation ring.
pub const INVOCATION_RING_KIND: u8 = 241;

/// Frames that each node lane retains.
pub const INVOCATION_RING_CAPACITY: usize = 256;

/// The largest invocation frame.
pub const INVOCATION_RING_PAYLOAD_CAPACITY: usize = 8_192;

pub const INVOCATION_PAYLOAD_MAX: usize = INVOCATION_RING_PAYLOAD_CAPACITY;

/// What travels on the invocation ring.
#[derive(Clone, Copy, Debug)]
pub struct InvocationRecord;

impl OrbitTyped for InvocationRecord {
    const KIND: u8 = INVOCATION_RING_KIND;

    const RING_CAPACITY: usize = INVOCATION_RING_CAPACITY;

    const RING_PAYLOAD_CAPACITY: usize = INVOCATION_RING_PAYLOAD_CAPACITY;

    const RING_TOPOLOGY: RingTopology = RingTopology::PerNode;
}

/// The ring that invocations declare.
pub proof fn lemma_invocation_record()
    ensures
        <InvocationRecord as OrbitTyped>::KIND == INVOCATION_RING_KIND,
        declared::<InvocationRecord>() == (RingSpec {
            capacity: INVOCATION_RING_CAPACITY,
            payload_capacity: INVOCATION_RING_PAYLOAD_CAPACITY,
            topology: RingTopology::PerNode,
        }),
        declared::<InvocationRecord>().valid(),
{
    assert(is_pow2(256)) by {
        reveal_with_fuel(is_pow2, 10);
    }
}

/// Identity that an invocation gets when it is committed. Its node is the one
/// that submitted it.
#[derive(Clone, Copy, Debug, PartialEq, Eq, Structural, Hash)]
pub struct InvocationId(pub NetId64);

impl InvocationId {
    /// The invocation of a frame's id.
    pub fn from_net_id(id: NetId64) -> (invocation: InvocationId)
        ensures
            invocation.0 == id,
    {
        InvocationId(id)
    }

    /// The frame's id.
    pub fn net_id(self) -> (id: NetId64)
        ensures
            id == self.0,
    {
        self.0
    }

    /// The node that submitted the invocation.
    pub fn node(self) -> (node: u16)
        ensures
            node == node_of(self.0.0),
    {
        self.0.node()
    }

    /// The text of the id.
    pub fn to_string(&self) -> (text: String)
        ensures
            text@ == text_form(self.0.0),
    {
        self.0.to_string()
    }
}

/// One invocation.
#[derive(Debug, PartialEq, Eq)]
pub struct Invocation {
    pub id: InvocationId,
    pub operation: String,
    pub payload: Vec<u8>,
    /// The time of its publication.
    pub submitted_at: OrbitEpoch,
}

/// What an invocation says.
#[verifier::ext_equal]
pub struct InvocationView {
    pub id: NetId64,
    pub operation: Seq<char>,
    pub payload: Seq<u8>,
    pub submitted_at: u64,
}

impl View for Invocation {
    type V = InvocationView;

    open spec fn view(&self) -> InvocationView {
        InvocationView {
            id: self.id.0,
            operation: self.operation@,
            payload: self.payload@,
            submitted_at: self.submitted_at.0,
        }
    }
}

/// What invocations say.
pub open spec fn invocation_views(invocations: Seq<Invocation>) -> Seq<InvocationView> {
    invocations.map_values(|invocation: Invocation| invocation@)
}

/// A codec for the payload of one operation, which whoever runs the operation
/// supplies.
pub trait InvocationCodec: Sized {
    const OPERATION: &'static str;

    fn encode_invocation(&self) -> Result<Vec<u8>, String>;

    fn decode_invocation(payload: &[u8]) -> Result<Self, String>;
}

/// What a codec's answer means for the caller.
pub fn codec_result<C>(answer: Result<C, String>) -> (result: Result<C, Error>)
    ensures
        result == match answer {
            Ok(value) => Ok(value),
            Err(message) => Err::<C, Error>(Error::Codec(message)),
        },
{
    match answer {
        Ok(value) => Ok(value),
        Err(message) => Err(Error::Codec(message)),
    }
}

impl Invocation {
    /// The payload as the codec of its operation reads it.
    pub fn decode<C: InvocationCodec>(&self) -> (decoded: Result<C, Error>)
        ensures
            if self.operation@ != C::OPERATION@ {
                &&& decoded is Err
                &&& decoded->Err_0 is OperationMismatch
                &&& decoded->Err_0->expected@ == C::OPERATION@
                &&& decoded->Err_0->actual@ == self.operation@
            } else {
                exists|payload: &[u8], answer: Result<C, String>|
                    payload@ == self.payload@ && #[trigger] call_ensures(
                        C::decode_invocation,
                        (payload,),
                        answer,
                    ) && decoded == match answer {
                        Ok(value) => Ok(value),
                        Err(message) => Err::<C, Error>(Error::Codec(message)),
                    }
            },
    {
        if self.operation != C::OPERATION.to_owned() {
            return Err(
                Error::OperationMismatch {
                    expected: C::OPERATION,
                    actual: self.operation.clone(),
                },
            );
        }
        let payload: &[u8] = self.payload.as_slice();
        let answer = C::decode_invocation(payload);
        assert(call_ensures(C::decode_invocation, (payload,), answer));
        codec_result(answer)
    }
}

/// Result of advancing an invocation cursor.
#[derive(Debug, PartialEq, Eq)]
pub struct InvocationPoll {
    pub invocations: Vec<Invocation>,
    /// Frames that are gone, or are no invocations.
    pub lagged: u64,
}

impl InvocationPoll {
    /// True when there was nothing new and nothing was missed.
    pub fn is_empty(&self) -> (empty: bool)
        ensures
            empty == (self.invocations@.len() == 0 && self.lagged == 0),
    {
        self.invocations.len() == 0 && self.lagged == 0
    }
}

/// One consumer's position in every node lane.
#[derive(Debug, PartialEq, Eq)]
pub struct InvocationCursor {
    inner: FleetLaneCursor,
}

impl View for InvocationCursor {
    type V = LaneCursorView;

    closed spec fn view(&self) -> LaneCursorView {
        self.inner@
    }
}

impl Clone for InvocationCursor {
    fn clone(&self) -> (copy: InvocationCursor)
        ensures
            copy@ == self@,
    {
        InvocationCursor { inner: self.inner.clone() }
    }
}

/// The invocation of a frame, if it is one: of the right class, with an
/// operation that is UTF-8.
pub open spec fn invocation_of(frame: FrameView) -> Option<InvocationView> {
    match parts(frame.payload) {
        Some((operation, payload)) => if frame.kind == FRAME_KIND_INVOCATION && valid_utf8(
            operation,
        ) {
            Some(
                InvocationView {
                    id: frame.id,
                    operation: decode_utf8(operation),
                    payload,
                    submitted_at: frame.ver,
                },
            )
        } else {
            None
        },
        None => None,
    }
}

/// The invocations of frames, in order.
pub open spec fn invocations_of(frames: Seq<FrameView>) -> Seq<InvocationView>
    decreases frames.len(),
{
    if frames.len() == 0 {
        Seq::empty()
    } else {
        match invocation_of(frames.last()) {
            Some(invocation) => invocations_of(frames.drop_last()).push(invocation),
            None => invocations_of(frames.drop_last()),
        }
    }
}

/// The invocations of an operation, in order.
pub open spec fn of_operation(
    invocations: Seq<InvocationView>,
    operation: Seq<char>,
) -> Seq<InvocationView> {
    invocations.filter(|invocation: InvocationView| invocation.operation == operation)
}

/// How many frames gave no invocation, up to the largest `u64`: those that were
/// overwritten, those that were unavailable and those that are no invocations.
pub open spec fn lag(ring: RingView, positions: Seq<u64>, other: nat) -> int {
    min_of(
        min_of(
            min_of(lanes_overwritten(ring, positions, positions.len()), u64::MAX as int) + min_of(
                lanes_unavailable(ring, positions, positions.len()),
                u64::MAX as int,
            ),
            u64::MAX as int,
        ) + other,
        u64::MAX as int,
    )
}

/// The invocation of a frame, if it is one.
pub fn invocation_in(frame: &Frame) -> (invocation: Option<Invocation>)
    ensures
        match invocation {
            Some(invocation) => invocation_of(frame@) == Some(invocation@),
            None => invocation_of(frame@) is None,
        },
{
    if frame.kind != FRAME_KIND_INVOCATION {
        return None;
    }
    match decode_frame(&frame.payload) {
        Some(decoded) => match text_of(to_vec(decoded.operation)) {
            Some(operation) => {
                proof {
                    encode_utf8_decode_utf8(operation@);
                }
                Some(
                    Invocation {
                        id: InvocationId(frame.id),
                        operation,
                        payload: to_vec(decoded.payload),
                        submitted_at: OrbitEpoch::from_unix_ms(frame.ver),
                    },
                )
            },
            None => None,
        },
        None => None,
    }
}

/// Why a submission is refused.
pub open spec fn submit_fault(operation: &str, payload: Seq<u8>) -> Option<Error> {
    if operation_fault(operation) is Some {
        operation_fault(operation)
    } else {
        frame_fault(operation.spec_bytes().len(), payload.len())
    }
}

/// The ring after an invocation was submitted, and its id.
pub open spec fn is_submitted(
    before: FleetView,
    operation: Seq<u8>,
    payload: Seq<u8>,
    now_ms: u64,
    after: FleetView,
    id: InvocationId,
) -> bool {
    let ring = before.ring::<InvocationRecord>();
    let frame = ring.next_frame(
        before.node,
        FRAME_KIND_INVOCATION,
        now_ms,
        invocation_frame(operation, payload),
    );
    &&& id.0 == frame.id
    &&& after == before.with_ring::<InvocationRecord>(
        ring.append(ring.spec.lane_of(before.node), frame),
    )
}

/// The fleet's invocation transport.
#[derive(Clone, Copy, Debug)]
pub struct InvocationBus;

impl InvocationBus {
    /// The transport.
    pub fn new() -> (bus: InvocationBus)
        ensures
            bus == InvocationBus,
            declared::<InvocationRecord>().valid(),
    {
        proof {
            lemma_invocation_record();
        }
        InvocationBus
    }

    /// The node that submits.
    pub fn node_id<F: FleetRings>(&self, fleet: &F) -> (node: NodeId)
        ensures
            node.0 == fleet.held().node,
    {
        fleet.node_id()
    }

    /// A cursor behind every invocation that is in the ring.
    pub fn cursor_at_head<F: FleetRings>(&self, fleet: &F) -> (cursor: InvocationCursor)
        requires
            fleet.sound(),
            fleet.held().usable::<InvocationRecord>(),
        ensures
            cursor@ == (LaneCursorView {
                positions: lane_heads(fleet.held().ring::<InvocationRecord>()),
                initial: 0,
            }),
            cursor@.fits(fleet.held().capacity),
    {
        InvocationCursor { inner: fleet.lane_cursor_at_head::<InvocationRecord>() }
    }

    /// A cursor that replays the history that is still in the ring.
    pub fn cursor_from_start<F: FleetRings>(&self, fleet: &F) -> (cursor: InvocationCursor)
        ensures
            cursor@ == (LaneCursorView {
                positions: Seq::new(fleet.held().capacity as nat, |i: int| 0u64),
                initial: 0,
            }),
    {
        InvocationCursor { inner: fleet.lane_cursor_from_start::<InvocationRecord>() }
    }

    /// Clears the ring.
    pub fn reset_ring<F: FleetRings>(&self, fleet: &mut F)
        requires
            old(fleet).sound(),
            old(fleet).held().usable::<InvocationRecord>(),
        ensures
            final(fleet).sound(),
            final(fleet).held().usable::<InvocationRecord>(),
            final(fleet).held() == old(fleet).held().with_ring::<InvocationRecord>(
                RingView::blank(
                    INVOCATION_RING_KIND,
                    declared::<InvocationRecord>(),
                    old(fleet).held().capacity as nat,
                ),
            ),
    {
        fleet.reset_ring::<InvocationRecord>();
    }

    /// Commits an invocation at a time. Success means publication, not
    /// execution.
    pub fn submit<F: FleetRings>(
        &self,
        fleet: &mut F,
        operation: &str,
        payload: &[u8],
        now_ms: u64,
    ) -> (id: Result<InvocationId, Error>)
        requires
            old(fleet).sound(),
            old(fleet).held().usable::<InvocationRecord>(),
        ensures
            final(fleet).sound(),
            final(fleet).held().usable::<InvocationRecord>(),
            match submit_fault(operation, payload@) {
                Some(error) => {
                    &&& id == Err::<InvocationId, Error>(error)
                    &&& final(fleet).held() == old(fleet).held()
                },
                None => {
                    &&& id is Ok
                    &&& is_submitted(
                        old(fleet).held(),
                        operation.spec_bytes(),
                        payload@,
                        now_ms,
                        final(fleet).held(),
                        id->Ok_0,
                    )
                },
            },
    {
        match validate_operation(operation) {
            Ok(_) => {},
            Err(error) => {
                return Err(error);
            },
        }
        match encode_frame(operation.as_bytes(), payload) {
            Ok(frame) => Ok(
                InvocationId(
                    fleet.publish_notified::<InvocationRecord>(FRAME_KIND_INVOCATION, now_ms, frame),
                ),
            ),
            Err(error) => Err(error),
        }
    }

    /// Commits an invocation whose payload a codec has answered with.
    pub fn submit_encoded<F: FleetRings>(
        &self,
        fleet: &mut F,
        operation: &str,
        encoded: Result<Vec<u8>, String>,
        now_ms: u64,
    ) -> (id: Result<InvocationId, Error>)
        requires
            old(fleet).sound(),
            old(fleet).held().usable::<InvocationRecord>(),
        ensures
            final(fleet).sound(),
            final(fleet).held().usable::<InvocationRecord>(),
            match encoded {
                Err(message) => {
                    &&& id == Err::<InvocationId, Error>(Error::Codec(message))
                    &&& final(fleet).held() == old(fleet).held()
                },
                Ok(payload) => match submit_fault(operation, payload@) {
                    Some(error) => {
                        &&& id == Err::<InvocationId, Error>(error)
                        &&& final(fleet).held() == old(fleet).held()
                    },
                    None => {
                        &&& id is Ok
                        &&& is_submitted(
                            old(fleet).held(),
                            operation.spec_bytes(),
                            payload@,
                            now_ms,
                            final(fleet).held(),
                            id->Ok_0,
                        )
                    },
                },
            },
    {
        match encoded {
            Err(message) => Err(Error::Codec(message)),
            Ok(payload) => self.submit(fleet, operation, payload.as_slice(), now_ms),
        }
    }

    /// Commits an invocation that its codec encodes.
    pub fn submit_typed<C: InvocationCodec, F: FleetRings>(
        &self,
        fleet: &mut F,
        invocation: &C,
        now_ms: u64,
    ) -> (id: Result<InvocationId, Error>)
        requires
            old(fleet).sound(),
            old(fleet).held().usable::<InvocationRecord>(),
        ensures
            final(fleet).sound(),
            final(fleet).held().usable::<InvocationRecord>(),
            exists|encoded: Result<Vec<u8>, String>| #[trigger]
                call_ensures(C::encode_invocation, (invocation,), encoded) && match encoded {
                    Err(message) => {
                        &&& id == Err::<InvocationId, Error>(Error::Codec(message))
                        &&& final(fleet).held() == old(fleet).held()
                    },
                    Ok(payload) => match submit_fault(C::OPERATION, payload@) {
                        Some(error) => {
                            &&& id == Err::<InvocationId, Error>(error)
                            &&& final(fleet).held() == old(fleet).held()
                        },
                        None => {
                            &&& id is Ok
                            &&& is_submitted(
                                old(fleet).held(),
                                C::OPERATION.spec_bytes(),
                                payload@,
                                now_ms,
                                final(fleet).held(),
                                id->Ok_0,
                            )
                        },
                    },
                },
    {
        let encoded = invocation.encode_invocation();
        assert(call_ensures(C::encode_invocation, (invocation,), encoded));
        self.submit_encoded(fleet, C::OPERATION, encoded, now_ms)
    }

    /// Reads all invocations since the cursor, and moves it to the ring's head.
    /// Their order is that of their lane, not of the fleet.
    pub fn poll<F: FleetRings>(
        &self,
        fleet: &F,
        cursor: &mut InvocationCursor,
    ) -> (poll: InvocationPoll)
        requires
            fleet.sound(),
            fleet.held().usable::<InvocationRecord>(),
            old(cursor)@.fits(fleet.held().capacity),
        ensures
            ({
                let ring = fleet.held().ring::<InvocationRecord>();
                let positions = old(cursor)@.begin(fleet.held().capacity);
                let frames = lanes_frames(ring, positions, positions.len());
                let invocations = invocations_of(frames);
                &&& invocation_views(poll.invocations@) == invocations
                &&& poll.lagged == lag(ring, positions, (frames.len() - invocations.len()) as nat)
                &&& final(cursor)@ == (LaneCursorView {
                    positions: lane_heads(ring),
                    initial: old(cursor)@.initial,
                })
            }),
            final(cursor)@.fits(fleet.held().capacity),
    {
        let raw = fleet.poll_lanes::<InvocationRecord>(&mut cursor.inner);
        let ghost frames = frame_views(raw.frames@);
        let missed: u64 = raw.loss.total();
        let mut lagged: u64 = missed;
        let mut invocations: Vec<Invocation> = Vec::new();
        let mut index: usize = 0;
        assert(frames.subrange(0, 0) =~= Seq::<FrameView>::empty());
        assert(invocation_views(invocations@) =~= Seq::<InvocationView>::empty());
        while index < raw.frames.len()
            invariant
                index <= raw.frames@.len(),
                frames == frame_views(raw.frames@),
                invocation_views(invocations@) == invocations_of(
                    frames.subrange(0, index as int),
                ),
                invocations@.len() <= index,
                lagged == min_of(missed + (index - invocations@.len()), u64::MAX as int),
            decreases raw.frames@.len() - index,
        {
            let ghost prefix = frames.subrange(0, index + 1);
            assert(prefix.drop_last() =~= frames.subrange(0, index as int));
            assert(prefix.last() == raw.frames@[index as int]@);
            let ghost before = invocations@;
            match invocation_in(&raw.frames[index]) {
                Some(invocation) => {
                    invocations.push(invocation);
                    assert(invocation_views(invocations@) =~= invocation_views(before).push(
                        invocation@,
                    ));
                },
                None => {
                    lagged = lagged.saturating_add(1);
                },
            }
            index = index + 1;
        }
        proof {
            assert(frames.subrange(0, frames.len() as int) =~= frames);
            assert(invocation_views(invocations@).len() == invocations@.len());
        }
        InvocationPoll { invocations, lagged }
    }

    /// Reads the invocations of one operation since the cursor. The cursor moves
    /// past all frames.
    pub fn poll_operation<F: FleetRings>(
        &self,
        fleet: &F,
        cursor: &mut InvocationCursor,
        operation: &str,
    ) -> (poll: InvocationPoll)
        requires
            fleet.sound(),
            fleet.held().usable::<InvocationRecord>(),
            old(cursor)@.fits(fleet.held().capacity),
        ensures
            ({
                let ring = fleet.held().ring::<InvocationRecord>();
                let positions = old(cursor)@.begin(fleet.held().capacity);
                let frames = lanes_frames(ring, positions, positions.len());
                let invocations = invocations_of(frames);
                &&& invocation_views(poll.invocations@) == of_operation(invocations, operation@)
                &&& poll.lagged == lag(ring, positions, (frames.len() - invocations.len()) as nat)
                &&& final(cursor)@ == (LaneCursorView {
                    positions: lane_heads(ring),
                    initial: old(cursor)@.initial,
                })
            }),
            final(cursor)@.fits(fleet.held().capacity),
    {
        let poll = self.poll(fleet, cursor);
        InvocationPoll {
            invocations: keep_operation(poll.invocations, operation),
            lagged: poll.lagged,
        }
    }
}

/// Keeps the invocations of one operation.
fn keep_operation(invocations: Vec<Invocation>, operation: &str) -> (kept: Vec<Invocation>)
    ensures
        invocation_views(kept@) == of_operation(invocation_views(invocations@), operation@),
{
    let wanted: String = operation.to_owned();
    let ghost all = invocation_views(invocations@);
    let ghost len = invocations@.len();
    let mut rest: Vec<Invocation> = invocations;
    let mut kept: Vec<Invocation> = Vec::new();
    let ghost mut done: int = 0;
    assert(all.subrange(0, 0) =~= Seq::<InvocationView>::empty());
    assert(of_operation(all.subrange(0, 0), operation@) =~= Seq::<InvocationView>::empty()) by {
        reveal(Seq::filter);
    }
    assert(invocation_views(kept@) =~= Seq::<InvocationView>::empty());
    while rest.len() > 0
        invariant
            wanted@ == operation@,
            all.len() == len,
            0 <= done,
            rest@.len() + done == len,
            invocation_views(rest@) == all.subrange(done, len as int),
            invocation_views(kept@) == of_operation(all.subrange(0, done), operation@),
        decreases rest@.len(),
    {
        let ghost before = kept@;
        let ghost left = rest@;
        let invocation: Invocation = rest.remove(0);
        proof {
            assert(invocation@ == invocation_views(left)[0]);
            assert(invocation@ == all[done]);
            let longer = all.subrange(0, done + 1);
            assert(longer.drop_last() =~= all.subrange(0, done));
            assert(longer.last() == invocation@);
            assert(of_operation(longer, operation@) == if invocation@.operation == operation@ {
                of_operation(all.subrange(0, done), operation@).push(invocation@)
            } else {
                of_operation(all.subrange(0, done), operation@)
            }) by {
                reveal(Seq::filter);
            }
        }
        if invocation.operation == wanted {
            kept.push(invocation);
            assert(invocation_views(kept@) =~= invocation_views(before).push(invocation@));
        }
        proof {
            done = done + 1;
            assert forall|i: int| 0 <= i < rest@.len() implies invocation_views(rest@)[i]
                == all.subrange(done, len as int)[i] by {
                assert(rest@[i] == left[i + 1]);
                assert(invocation_views(left)[i + 1] == all.subrange(done - 1, len as int)[i + 1]);
            }
            assert(invocation_views(rest@) =~= all.subrange(done, len as int));
        }
    }
    assert(all.subrange(0, len as int) =~= all);
    kept
}

} // verus!
