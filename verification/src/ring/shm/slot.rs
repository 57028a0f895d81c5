//! Slots of a shared-memory ring: the publication and the read protocol.
//!
//! A slot's sequence word is odd while its writer is at work and even once the
//! slot is committed. A reader loads the word, copies the slot, and loads the
//! word again: the copy counts only when both loads gave the same even,
//! non-zero value.
use vstd::prelude::*;

use crate::codec::{le32, le64, push_u32, push_u64, read_u32, read_u64, u32_at, u64_at};
use crate::id::{counter_of, NetId64};
use crate::octets;
use crate::octets::octets;
use crate::ring::cursor::{ReadView, RingRead};
use crate::ring::shm::layout::SLOT_HEADER_SIZE;
use crate::ring::{frame_view, Frame, FrameView, RingTopology};

verus! {

broadcast use crate::codec::group_widths;

/// How often a reader copies a slot before it gives up on a torn one.
pub const READ_ATTEMPTS: u8 = 3;

/// The largest counter whose sequence words exist.
pub const LAST_COUNTER: u64 = 0x7fff_ffff_ffff_ffff;

/// The sequence word of a slot while the frame of a counter is written.
pub open spec fn writing_seq(counter: u64) -> u64 {
    (2 * counter + 1) as u64
}

/// The sequence word of a slot once the frame of a counter is committed.
pub open spec fn committed_seq(counter: u64) -> u64 {
    if counter == LAST_COUNTER {
        0
    } else {
        (2 * counter + 2) as u64
    }
}

/// What the bytes of a slot say.
#[verifier::ext_equal]
pub struct SlotView {
    pub seq: u64,
    pub id: u64,
    pub ver: u64,
    pub len: u32,
    pub kind: u8,
    pub payload: Seq<u8>,
}

/// What the bytes of the slot that begins at `at` say.
pub open spec fn slot_view(bytes: Seq<u8>, at: int, payload_capacity: int) -> SlotView {
    SlotView {
        seq: u64_at(bytes, at),
        id: u64_at(bytes, at + 8),
        ver: u64_at(bytes, at + 16),
        len: u32_at(bytes, at + 24),
        kind: bytes[at + 28],
        payload: bytes.subrange(
            at + SLOT_HEADER_SIZE,
            at + SLOT_HEADER_SIZE + payload_capacity,
        ),
    }
}

impl SlotView {
    /// A slot that nothing was written to.
    pub open spec fn blank(payload_capacity: nat) -> SlotView {
        SlotView {
            seq: 0,
            id: 0,
            ver: 0,
            len: 0,
            kind: 0,
            payload: Seq::new(payload_capacity, |i: int| 0u8),
        }
    }

    /// The slot after the frame of a counter was committed to it.
    pub open spec fn commit(self, counter: u64, frame: FrameView) -> SlotView {
        SlotView {
            seq: committed_seq(counter),
            id: frame.id.0,
            ver: frame.ver,
            len: frame.payload.len() as u32,
            kind: frame.kind,
            payload: frame.payload + self.payload.subrange(
                frame.payload.len() as int,
                self.payload.len() as int,
            ),
        }
    }

    /// The frame that a committed slot holds. A slot that was never written, is
    /// being written, or claims more bytes than it has, holds none.
    pub open spec fn frame(self) -> Option<FrameView> {
        if self.seq == 0 || self.seq % 2 == 1 || self.len > self.payload.len() {
            None
        } else {
            Some(
                FrameView {
                    id: NetId64(self.id),
                    kind: self.kind,
                    ver: self.ver,
                    payload: self.payload.subrange(0, self.len as int),
                },
            )
        }
    }

    /// What a walking reader finds in the slot of a counter.
    pub open spec fn state(self, topology: RingTopology, counter: u64) -> ReadView {
        let expected = committed_seq(counter);
        if self.seq < expected {
            behind(topology)
        } else if self.seq > expected {
            ReadView::Unavailable
        } else {
            match self.frame() {
                Some(frame) => if counter_of(frame.id.0) == counter {
                    ReadView::Ready(frame)
                } else {
                    ReadView::Unavailable
                },
                None => ReadView::Unavailable,
            }
        }
    }
}

/// What a walking reader makes of a slot that has not reached its counter: in
/// flight where heads count claims, gone where they count commits.
pub open spec fn behind(topology: RingTopology) -> ReadView {
    if topology != RingTopology::Shared {
        ReadView::Unavailable
    } else {
        ReadView::Pending
    }
}

/// The bytes of a frame that stand behind the sequence word, up to the
/// reserved bytes.
pub open spec fn fields(frame: FrameView) -> Seq<u8> {
    le64(frame.id.0) + le64(frame.ver) + le32(frame.payload.len() as u32) + seq![frame.kind]
}

/// Everything a writer stores to publish one frame: the sequence word while it
/// writes, the fields behind that word, and the word that commits the slot.
/// The payload goes behind the slot header.
pub struct SlotWrite {
    pub id: NetId64,
    pub writing: u64,
    pub fields: Vec<u8>,
    pub committed: u64,
}

/// Prepares the publication of one frame.
pub fn plan_write(
    kind: u8,
    node: u16,
    counter: u64,
    frame_kind: u8,
    ver: u64,
    payload: &[u8],
) -> (write: SlotWrite)
    requires
        counter <= LAST_COUNTER,
        payload@.len() <= u32::MAX,
    ensures
        write.id == NetId64::of(kind, node, counter),
        write.writing == writing_seq(counter),
        write.committed == committed_seq(counter),
        write.fields@ == fields(
            FrameView { id: write.id, kind: frame_kind, ver, payload: payload@ },
        ),
        write.fields@.len() == 21,
{
    let id = NetId64::make(kind, node, counter);
    let writing: u64 = 2 * counter + 1;
    let committed: u64 = writing.wrapping_add(1);
    let mut bytes: Vec<u8> = Vec::new();
    push_u64(&mut bytes, id.raw());
    push_u64(&mut bytes, ver);
    push_u32(&mut bytes, payload.len() as u32);
    bytes.push(frame_kind);
    SlotWrite { id, writing, fields: bytes, committed }
}

/// One copy of a slot: the sequence word before and after the copy, and the
/// copied bytes from the slot's beginning.
pub struct SlotCopy<'a> {
    pub seq_before: u64,
    pub bytes: &'a [u8],
    pub seq_after: u64,
}

/// What a copy of a slot says, when the copy is not torn.
pub open spec fn copied(copy: SlotCopy, payload_capacity: int) -> Option<FrameView> {
    let slot = SlotView {
        seq: copy.seq_before,
        ..slot_view(copy.bytes@, 0, payload_capacity)
    };
    if copy.seq_before != copy.seq_after {
        None
    } else {
        slot.frame()
    }
}

/// Decodes one copy of a slot.
pub fn read_committed_frame(copy: &SlotCopy, payload_capacity: usize) -> (frame: Option<Frame>)
    requires
        copy.bytes@.len() >= SLOT_HEADER_SIZE + payload_capacity,
    ensures
        frame_view(frame) == copied(*copy, payload_capacity as int),
{
    if copy.seq_before == 0 {
        return None;
    }
    if copy.seq_before % 2 == 1 {
        return None;
    }
    assert(copy.bytes.len() >= SLOT_HEADER_SIZE);
    let id = NetId64::from_raw(read_u64(copy.bytes, 8));
    let kind: u8 = copy.bytes[28];
    let ver: u64 = read_u64(copy.bytes, 16);
    let stored: u32 = read_u32(copy.bytes, 24);
    if stored as u64 > payload_capacity as u64 {
        return None;
    }
    if copy.seq_before != copy.seq_after {
        return None;
    }
    let len: usize = stored as usize;
    let payload = octets::copy_of(&copy.bytes[SLOT_HEADER_SIZE..SLOT_HEADER_SIZE + len]);
    let frame = Frame { id, kind, ver, payload };
    proof {
        let slot = slot_view(copy.bytes@, 0, payload_capacity as int);
        assert(slot.payload.subrange(0, len as int) =~= copy.bytes@.subrange(
            SLOT_HEADER_SIZE as int,
            SLOT_HEADER_SIZE + len,
        ));
    }
    Some(frame)
}

/// What a reader does next.
pub enum ReadStep {
    /// The read is over, with this result.
    Done(Option<Frame>),
    /// Copy the slot once more.
    Again,
}

/// Decides what a reader of any frame does after its copy number `attempt`,
/// counted from zero.
pub fn after_copy(copy: &SlotCopy, payload_capacity: usize, attempt: u8) -> (step: ReadStep)
    requires
        copy.bytes@.len() >= SLOT_HEADER_SIZE + payload_capacity,
        attempt < READ_ATTEMPTS,
    ensures
        match copied(*copy, payload_capacity as int) {
            Some(frame) => step matches ReadStep::Done(Some(read)) && read@ == frame,
            None => if attempt + 1 < READ_ATTEMPTS {
                step is Again
            } else {
                step == ReadStep::Done(None)
            },
        },
{
    match read_committed_frame(copy, payload_capacity) {
        Some(frame) => ReadStep::Done(Some(frame)),
        None => if attempt + 1 < READ_ATTEMPTS {
            ReadStep::Again
        } else {
            ReadStep::Done(None)
        },
    }
}

/// Decides what a reader of one counter's frame does after its copy number
/// `attempt`, counted from zero. A frame of another counter means that the slot
/// was overwritten.
pub fn after_exact_copy(
    copy: &SlotCopy,
    payload_capacity: usize,
    counter: u64,
    attempt: u8,
) -> (step: ReadStep)
    requires
        copy.bytes@.len() >= SLOT_HEADER_SIZE + payload_capacity,
        attempt < READ_ATTEMPTS,
    ensures
        match copied(*copy, payload_capacity as int) {
            Some(frame) => if counter_of(frame.id.0) == counter {
                step matches ReadStep::Done(Some(read)) && read@ == frame
            } else {
                step == ReadStep::Done(None)
            },
            None => if attempt + 1 < READ_ATTEMPTS {
                step is Again
            } else {
                step == ReadStep::Done(None)
            },
        },
{
    match read_committed_frame(copy, payload_capacity) {
        Some(frame) => if frame.id.counter() == counter {
            ReadStep::Done(Some(frame))
        } else {
            ReadStep::Done(None)
        },
        None => if attempt + 1 < READ_ATTEMPTS {
            ReadStep::Again
        } else {
            ReadStep::Done(None)
        },
    }
}

/// What a walking reader does next.
pub enum WalkStep {
    /// The counter is classified.
    Done(RingRead),
    /// Copy the slot.
    Copy,
    /// Load the sequence word once more.
    Load,
}

/// Decides what a walking reader does after it loaded the sequence word for
/// the time number `attempt`, counted from zero. Once all copies were torn the
/// word alone decides.
pub fn after_load(topology: RingTopology, counter: u64, sequence: u64, attempt: u8) -> (step:
    WalkStep)
    requires
        counter < LAST_COUNTER,
    ensures
        if sequence < committed_seq(counter) {
            step matches WalkStep::Done(read) && read@ == behind(topology)
        } else if sequence > committed_seq(counter) || attempt >= READ_ATTEMPTS {
            step == WalkStep::Done(RingRead::Unavailable)
        } else {
            step is Copy
        },
{
    let expected: u64 = 2 * counter + 2;
    if sequence < expected {
        return if topology != RingTopology::Shared {
            WalkStep::Done(RingRead::Unavailable)
        } else {
            WalkStep::Done(RingRead::Pending)
        };
    }
    if sequence > expected {
        return WalkStep::Done(RingRead::Unavailable);
    }
    if attempt >= READ_ATTEMPTS {
        WalkStep::Done(RingRead::Unavailable)
    } else {
        WalkStep::Copy
    }
}

/// Decides what a walking reader does after it copied the slot.
pub fn after_walk_copy(copy: &SlotCopy, payload_capacity: usize, counter: u64) -> (step: WalkStep)
    requires
        copy.bytes@.len() >= SLOT_HEADER_SIZE + payload_capacity,
    ensures
        match copied(*copy, payload_capacity as int) {
            Some(frame) => if counter_of(frame.id.0) == counter {
                step matches WalkStep::Done(read) && read@ == ReadView::Ready(frame)
            } else {
                step == WalkStep::Done(RingRead::Unavailable)
            },
            None => step is Load,
        },
{
    match read_committed_frame(copy, payload_capacity) {
        Some(frame) => if frame.id.counter() == counter {
            WalkStep::Done(RingRead::Ready(frame))
        } else {
            WalkStep::Done(RingRead::Unavailable)
        },
        None => WalkStep::Load,
    }
}

/// A torn copy is never taken for a frame: what a reader accepts was copied
/// between two loads of the same even, non-zero sequence word.
pub proof fn law_torn_copy_is_rejected(copy: SlotCopy, payload_capacity: int)
    requires
        copied(copy, payload_capacity) is Some,
    ensures
        copy.seq_before == copy.seq_after,
        copy.seq_before != 0,
        copy.seq_before % 2 == 0,
{
}

/// A committed slot gives back the frame it was committed with.
pub proof fn law_commit_then_frame(slot: SlotView, counter: u64, frame: FrameView)
    requires
        counter < LAST_COUNTER,
        frame.payload.len() <= slot.payload.len() <= u32::MAX,
    ensures
        slot.commit(counter, frame).frame() == Some(frame),
        slot.commit(counter, frame).payload.len() == slot.payload.len(),
{
    let after = slot.commit(counter, frame);
    assert(after.payload.subrange(0, frame.payload.len() as int) =~= frame.payload);
}

/// The sequence words of a slot only grow: odd while a frame is written, even and not zero
/// once it is committed, and higher for every later frame.
pub proof fn law_sequence_words_grow(counter: u64, later: u64)
    requires
        counter < later < LAST_COUNTER,
    ensures
        writing_seq(counter) % 2 == 1,
        committed_seq(counter) % 2 == 0,
        0 < writing_seq(counter) < committed_seq(counter) < writing_seq(later)
            < committed_seq(later),
{
}

/// What a walking reader finds in a slot: the frame of its counter where that one is there;
/// nothing any more where a later one is; and where an earlier one is, nothing yet in a
/// ring that all share, else nothing at all.
pub proof fn law_reader_finds_the_frame_of_its_counter(
    slot: SlotView,
    topology: RingTopology,
    written: u64,
    frame: FrameView,
    wanted: u64,
)
    requires
        written < LAST_COUNTER,
        wanted < LAST_COUNTER,
        frame.payload.len() <= slot.payload.len() <= u32::MAX,
        counter_of(frame.id.0) == written,
    ensures
        ({
            let found = slot.commit(written, frame).state(topology, wanted);
            &&& wanted == written ==> found == ReadView::Ready(frame)
            &&& wanted < written ==> found == ReadView::Unavailable
            &&& wanted > written && topology == RingTopology::Shared ==> found
                == ReadView::Pending
            &&& wanted > written && topology != RingTopology::Shared ==> found
                == ReadView::Unavailable
        }),
{
    law_commit_then_frame(slot, written, frame);
}

/// A slot that is being written, or was never written, has no frame.
pub proof fn law_unfinished_slot_has_no_frame(slot: SlotView, counter: u64)
    ensures
        slot.seq == 0 || slot.seq % 2 == 1 ==> slot.frame() is None,
        slot.frame() matches Some(frame) ==> frame.id.0 == slot.id && frame.ver == slot.ver
            && frame.kind == slot.kind && frame.payload.len() == slot.len
            && frame.payload.is_prefix_of(slot.payload),
        counter < LAST_COUNTER ==> (SlotView { seq: writing_seq(counter), ..slot }).frame() is None,
{
}

/// Where the fields of a slot stand in a segment.
pub proof fn law_slot_layout(bytes: Seq<u8>, at: int, payload_capacity: int, i: int)
    requires
        0 <= at,
        0 <= payload_capacity,
        at + 32 + payload_capacity <= bytes.len(),
        0 <= i < payload_capacity,
    ensures
        ({
            let slot = slot_view(bytes, at, payload_capacity);
            &&& slot.seq == u64_at(bytes, at)
            &&& slot.id == u64_at(bytes, at + 8)
            &&& slot.ver == u64_at(bytes, at + 16)
            &&& slot.len == u32_at(bytes, at + 24)
            &&& slot.kind == bytes[at + 28]
            &&& slot.payload.len() == payload_capacity
            &&& slot.payload[i] == bytes[at + 32 + i]
        }),
{
}

} // verus!
