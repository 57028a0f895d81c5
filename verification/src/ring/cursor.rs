//! Walking a ring from a caller-owned cursor toward the head.
use vstd::prelude::*;

use crate::id::{counter_of, kind_of};
use crate::numbers::max_of;
use crate::ring::{frame_view, frame_views, Frame, FrameView};

verus! {

/// Result of reading one counter of a ring.
#[derive(Debug, PartialEq, Eq)]
pub enum RingRead {
    /// The counter is committed and safe to consume.
    Ready(Frame),
    /// The counter has been claimed but may still be in flight: a cursor must
    /// stay on it and retry later.
    Pending,
    /// The counter can no longer be read from its slot.
    Unavailable,
}

/// What a read says.
pub enum ReadView {
    Ready(FrameView),
    Pending,
    Unavailable,
}

impl View for RingRead {
    type V = ReadView;

    open spec fn view(&self) -> ReadView {
        match self {
            RingRead::Ready(frame) => ReadView::Ready(frame@),
            RingRead::Pending => ReadView::Pending,
            RingRead::Unavailable => ReadView::Unavailable,
        }
    }
}

/// What a source that cannot tell in-flight counters apart says of a counter:
/// a frame is ready, and its absence definitive.
pub open spec fn plain_state(frame: Option<FrameView>) -> ReadView {
    match frame {
        Some(frame) => ReadView::Ready(frame),
        None => ReadView::Unavailable,
    }
}

/// The classification of a counter for a source that cannot tell in-flight
/// counters apart.
pub fn plain_read(frame: Option<Frame>) -> (read: RingRead)
    ensures
        read@ == plain_state(frame_view(frame)),
{
    match frame {
        Some(frame) => RingRead::Ready(frame),
        None => RingRead::Unavailable,
    }
}

/// Read-only source that a cursor can walk: the ring's kind, its visible head,
/// its capacity, and reads addressed by counter.
pub trait RingFrameSource {
    /// The kind this source carries.
    spec fn source_kind(&self) -> u8;

    /// The visible head.
    spec fn source_head(&self) -> u64;

    /// The slot count.
    spec fn source_capacity(&self) -> usize;

    /// What stands in the slot a counter falls into.
    spec fn source_frame(&self, counter: u64) -> Option<FrameView>;

    /// What a walking reader finds at a counter.
    spec fn source_state(&self, counter: u64) -> ReadView;

    /// True when the source can be read.
    spec fn source_ready(&self) -> bool;

    fn kind(&self) -> (kind: u8)
        requires
            self.source_ready(),
        ensures
            kind == self.source_kind(),
    ;

    fn head(&self) -> (head: u64)
        requires
            self.source_ready(),
        ensures
            head == self.source_head(),
    ;

    fn capacity(&self) -> (capacity: usize)
        requires
            self.source_ready(),
        ensures
            capacity == self.source_capacity(),
    ;

    fn read_at(&self, counter: u64) -> (frame: Option<Frame>)
        requires
            self.source_ready(),
        ensures
            frame_view(frame) == self.source_frame(counter),
    ;

    fn read_state_at(&self, counter: u64) -> (read: RingRead)
        requires
            self.source_ready(),
            counter < self.source_head(),
        ensures
            read@ == self.source_state(counter),
    ;
}

/// Caller-owned position in a ring walk: the next counter to attempt.
#[derive(Clone, Copy, Debug, PartialEq, Eq, Structural)]
pub struct RingCursor {
    next_counter: u64,
}

impl View for RingCursor {
    type V = u64;

    closed spec fn view(&self) -> u64 {
        self.next_counter
    }
}

impl Default for RingCursor {
    fn default() -> (cursor: RingCursor)
        ensures
            cursor@ == 0,
    {
        RingCursor { next_counter: 0 }
    }
}

impl RingCursor {
    /// Start at counter zero.
    pub fn from_start() -> (cursor: RingCursor)
        ensures
            cursor@ == 0,
    {
        RingCursor { next_counter: 0 }
    }

    /// Start from a known counter.
    pub fn from_counter(next_counter: u64) -> (cursor: RingCursor)
        ensures
            cursor@ == next_counter,
    {
        RingCursor { next_counter }
    }

    /// The counter this cursor reads next.
    pub fn next_counter(self) -> (counter: u64)
        ensures
            counter == self@,
    {
        self.next_counter
    }

    pub(crate) fn set_next_counter(&mut self, next_counter: u64)
        ensures
            final(self)@ == next_counter,
    {
        self.next_counter = next_counter;
    }
}

/// Counters skipped while walking a ring.
#[derive(Clone, Copy, Debug, PartialEq, Eq, Structural)]
pub struct RingLoss {
    /// Counters older than the ring's window.
    pub overwritten: u64,
    /// Counters inside the window whose slot could not be used.
    pub unavailable: u64,
}

impl Default for RingLoss {
    fn default() -> (loss: RingLoss)
        ensures
            loss == (RingLoss { overwritten: 0, unavailable: 0 }),
    {
        RingLoss { overwritten: 0, unavailable: 0 }
    }
}

impl RingLoss {
    /// All skipped counters; the sum stops at the largest `u64`.
    pub open spec fn sum(self) -> u64 {
        if self.overwritten + self.unavailable > u64::MAX {
            u64::MAX
        } else {
            (self.overwritten + self.unavailable) as u64
        }
    }

    /// All skipped counters; the sum stops at the largest `u64`.
    pub fn total(self) -> (total: u64)
        ensures
            total == self.sum(),
    {
        self.overwritten.saturating_add(self.unavailable)
    }

    /// True when nothing was skipped.
    pub fn is_empty(self) -> (empty: bool)
        ensures
            empty == (self.overwritten == 0 && self.unavailable == 0),
    {
        self.overwritten == 0 && self.unavailable == 0
    }
}

/// Result of walking a cursor toward a ring's head.
#[derive(Debug, PartialEq, Eq)]
pub struct RingPoll {
    pub frames: Vec<Frame>,
    pub loss: RingLoss,
    pub from_counter: u64,
    pub to_counter: u64,
}

impl RingPoll {
    /// True when nothing was read and nothing skipped.
    pub fn is_empty(&self) -> (empty: bool)
        ensures
            empty == (self.frames@.len() == 0 && self.loss.overwritten == 0
                && self.loss.unavailable == 0),
    {
        self.frames.len() == 0 && self.loss.is_empty()
    }
}

/// True when the state is a ready frame that carries the expected kind and
/// counter.
pub open spec fn wanted(state: ReadView, kind: u8, counter: u64) -> bool {
    match state {
        ReadView::Ready(frame) => kind_of(frame.id.0) == kind && counter_of(frame.id.0) == counter,
        _ => false,
    }
}

/// What a cursor walks: a kind, the visible head, the slot count, and what a
/// reader finds at each counter.
#[verifier::ext_equal]
pub struct SourceView {
    pub kind: u8,
    pub head: u64,
    pub capacity: usize,
    pub states: spec_fn(u64) -> ReadView,
}

/// What a source presents to a cursor.
pub open spec fn source_view<S: RingFrameSource>(source: &S) -> SourceView {
    SourceView {
        kind: source.source_kind(),
        head: source.source_head(),
        capacity: source.source_capacity(),
        states: |counter: u64| source.source_state(counter),
    }
}

impl SourceView {
    /// What a reader finds at a counter.
    pub open spec fn state(self, counter: int) -> ReadView {
        (self.states)(counter as u64)
    }

    /// The wanted frames of the counters from `from` up to `to`, in order.
    pub open spec fn collected(self, from: int, to: int) -> Seq<FrameView>
        decreases to - from,
    {
        if to <= from {
            Seq::empty()
        } else {
            let before = self.collected(from, to - 1);
            let state = self.state(to - 1);
            if wanted(state, self.kind, (to - 1) as u64) {
                before.push(state->Ready_0)
            } else {
                before
            }
        }
    }

    /// The counter at which a walk begins: the cursor's, or the oldest one the
    /// ring still holds.
    pub open spec fn walk_start(self, from: u64) -> int {
        max_of(from as int, self.head - self.capacity)
    }

    /// True when a walk that begins at `start` ends at `end`: no counter before
    /// `end` is pending, and `end` is the head or pending.
    pub open spec fn walk_ends(self, start: int, end: int) -> bool {
        &&& start <= end <= self.head
        &&& forall|c: int| start <= c < end ==> !(#[trigger] self.state(c) is Pending)
        &&& end < self.head ==> self.state(end) is Pending
    }

    /// What a poll from `from` gives.
    pub open spec fn is_poll(self, from: u64, poll: RingPoll) -> bool {
        &&& poll.from_counter == from
        &&& if from >= self.head {
            &&& poll.to_counter == self.head
            &&& frame_views(poll.frames@) == Seq::<FrameView>::empty()
            &&& poll.loss == (RingLoss { overwritten: 0, unavailable: 0 })
        } else {
            let start = self.walk_start(from);
            &&& self.walk_ends(start, poll.to_counter as int)
            &&& frame_views(poll.frames@) == self.collected(start, poll.to_counter as int)
            &&& poll.loss.overwritten == start - from
            &&& poll.loss.unavailable == poll.to_counter - start - poll.frames@.len()
        }
    }
}

/// Walks `cursor` toward the head of `source`.
///
/// At most one window of the ring is inspected. Counters older than the window
/// are recorded as overwritten. A counter in flight stops the walk.
pub fn poll_ring<S: RingFrameSource>(source: &S, cursor: &mut RingCursor) -> (poll: RingPoll)
    requires
        source.source_ready(),
    ensures
        source_view(source).is_poll(old(cursor)@, poll),
        final(cursor)@ == poll.to_counter,
{
    let head: u64 = source.head();
    let from_counter: u64 = cursor.next_counter();
    if from_counter >= head {
        cursor.set_next_counter(head);
        let poll = RingPoll {
            frames: Vec::new(),
            loss: RingLoss { overwritten: 0, unavailable: 0 },
            from_counter,
            to_counter: head,
        };
        assert(frame_views(poll.frames@) =~= Seq::<FrameView>::empty());
        return poll;
    }
    let capacity: u64 = source.capacity() as u64;
    let oldest_available: u64 = head.saturating_sub(capacity);
    let mut next: u64 = from_counter;
    let mut overwritten: u64 = 0;
    if next < oldest_available {
        overwritten = oldest_available - next;
        next = oldest_available;
    }
    let ghost start = next as int;
    let ghost walked = source_view(source);
    let kind: u8 = source.kind();
    let mut unavailable: u64 = 0;
    let mut frames: Vec<Frame> = Vec::new();
    assert(frame_views(frames@) =~= Seq::<FrameView>::empty());
    while next < head
        invariant
            source.source_ready(),
            walked == source_view(source),
            kind == source.source_kind(),
            head == source.source_head(),
            start <= next <= head,
            0 <= start,
            forall|c: int|
                start <= c < next ==> !(#[trigger] walked.state(c) is Pending),
            frame_views(frames@) == walked.collected(start, next as int),
            unavailable == next - start - frames@.len(),
        ensures
            walked.walk_ends(start, next as int),
            frame_views(frames@) == walked.collected(start, next as int),
            unavailable == next - start - frames@.len(),
        decreases head - next,
    {
        let read = source.read_state_at(next);
        assert(read@ == walked.state(next as int));
        match read {
            RingRead::Ready(frame) => {
                if frame.id.kind() != kind || frame.id.counter() != next {
                    unavailable = unavailable + 1;
                } else {
                    let ghost before = frames@;
                    frames.push(frame);
                    assert(frame_views(frames@) =~= frame_views(before).push(frame@));
                }
                next = next + 1;
            },
            RingRead::Pending => {
                break;
            },
            RingRead::Unavailable => {
                unavailable = unavailable + 1;
                next = next + 1;
            },
        }
    }
    cursor.set_next_counter(next);
    RingPoll { frames, loss: RingLoss { overwritten, unavailable }, from_counter, to_counter: next }
}

/// The end of a walk is determined by its start: a counter in flight, or the
/// head, stops every walk from there at the same place.
pub proof fn law_walk_end_unique(walked: SourceView, start: int, one: int, other: int)
    requires
        walked.walk_ends(start, one),
        walked.walk_ends(start, other),
    ensures
        one == other,
{
    if one < other {
        assert(walked.state(one) is Pending);
    } else if other < one {
        assert(walked.state(other) is Pending);
    }
}

/// A walk never passes a counter in flight, and leaves the cursor on it.
pub proof fn law_walk_stops_at_pending(walked: SourceView, from: u64, poll: RingPoll, pending: int)
    requires
        walked.is_poll(from, poll),
        walked.walk_start(from) <= pending < walked.head,
        from <= pending,
        walked.state(pending) is Pending,
    ensures
        poll.to_counter <= pending,
        walked.state(poll.to_counter as int) is Pending,
{
}

} // verus!
