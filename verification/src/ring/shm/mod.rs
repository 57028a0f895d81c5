//! Rings over a shared-memory segment.
//!
//! [`ShmRing`] runs the ring protocol on the bytes of one segment. How a
//! segment is mapped, and which locks its writers take, is the embedder's
//! concern: the offsets, the words and the bytes that go to them are computed
//! here.
use bytes::Bytes;
use vstd::prelude::*;

use crate::codec::{
    agree, le32, le64, lemma_overwrite, lemma_read_u32, lemma_read_u64, lemma_same_u16,
    lemma_same_u32, lemma_same_u64, lemma_section_words, lemma_stands_kept, lemma_stands_part,
    lemma_zero_words, overwrite, push_u32, push_u64, read_u32, read_u64, stands_at, to_vec, u32_at,
    u64_at, write_over, zeroes,
};
use crate::id::{counter_of, cut_counter, kind_of, node_of, NetId64};
use crate::node::NodeId;
use crate::octets;
use crate::octets::{all_octets, octets};
use crate::ring::cursor::{ReadView, RingFrameSource, RingRead};
use crate::ring::shm::layout::{
    layout_error, law_own_header_passes, lemma_sizes, lemma_slot_fits, lemma_slots_apart, ShmError,
    ShmGeometry, HEADER_SIZE, SLOT_HEADER_SIZE,
};
use crate::ring::shm::slot::{
    after_copy, after_exact_copy, after_load, after_walk_copy, committed_seq, copied, fields,
    plan_write, slot_view, ReadStep, SlotCopy, SlotView, WalkStep, writing_seq, LAST_COUNTER,
    READ_ATTEMPTS,
};
use crate::ring::{frame_view, Frame, FrameView, RingSpec, RingTopology};

pub mod laws;
pub mod layout;
pub mod observer;
pub mod refinement;
pub mod registry;
pub mod slot;

verus! {

broadcast use crate::codec::group_widths;

/// What one lane of a segment holds.
#[verifier::ext_equal]
pub struct ShmLaneView {
    pub head: u64,
    pub slots: Seq<SlotView>,
}

/// What a segment holds.
#[verifier::ext_equal]
pub struct ShmView {
    pub geometry: ShmGeometry,
    pub version: u64,
    pub notification: u32,
    pub lanes: Seq<ShmLaneView>,
}

/// What the bytes of a lane say.
pub open spec fn lane_view(geometry: ShmGeometry, bytes: Seq<u8>, lane: int) -> ShmLaneView {
    ShmLaneView {
        head: u64_at(bytes, geometry.lane_start(lane)),
        slots: Seq::new(
            geometry.spec.capacity as nat,
            |index: int|
                slot_view(
                    bytes,
                    geometry.slot_start(lane, index),
                    geometry.spec.payload_capacity as int,
                ),
        ),
    }
}

/// What the bytes of a segment say.
pub open spec fn segment_view(geometry: ShmGeometry, bytes: Seq<u8>) -> ShmView {
    ShmView {
        geometry,
        version: u64_at(bytes, 0),
        notification: u32_at(bytes, 36),
        lanes: Seq::new(
            geometry.lane_count as nat,
            |lane: int| lane_view(geometry, bytes, lane),
        ),
    }
}

/// The notification word after one more notification: behind the largest one
/// comes zero.
pub open spec fn next_notification(generation: u32) -> u32 {
    if generation == u32::MAX {
        0
    } else {
        (generation + 1) as u32
    }
}

impl ShmView {
    /// A segment of this geometry that nothing was written to.
    pub open spec fn blank(geometry: ShmGeometry) -> ShmView {
        ShmView {
            geometry,
            version: 0,
            notification: 0,
            lanes: Seq::new(
                geometry.lane_count as nat,
                |lane: int|
                    ShmLaneView {
                        head: 0,
                        slots: Seq::new(
                            geometry.spec.capacity as nat,
                            |index: int| SlotView::blank(geometry.spec.payload_capacity as nat),
                        ),
                    },
            ),
        }
    }

    /// True when the lanes and their slots are those that the geometry names.
    pub open spec fn shaped(self) -> bool {
        &&& self.geometry.wf()
        &&& self.lanes.len() == self.geometry.lane_count
        &&& forall|lane: int|
            0 <= lane < self.lanes.len() ==> (#[trigger] self.lanes[lane]).slots.len()
                == self.geometry.spec.capacity
        &&& forall|lane: int, index: int|
            0 <= lane < self.lanes.len() && 0 <= index < self.geometry.spec.capacity ==> (
            #[trigger] self.lanes[lane].slots[index]).payload.len()
                == self.geometry.spec.payload_capacity
    }

    /// The slot that a counter of a lane falls into.
    pub open spec fn slot(self, lane: int, counter: u64) -> SlotView {
        self.lanes[lane].slots[counter as int % self.geometry.spec.capacity as int]
    }

    /// The frame that a node's next write of this content makes.
    pub open spec fn next_frame(
        self,
        node: u16,
        frame_kind: u8,
        ver: u64,
        payload: Seq<u8>,
    ) -> FrameView {
        FrameView {
            id: NetId64::of(
                self.geometry.kind,
                node,
                self.lanes[self.geometry.spec.lane_of(node)].head,
            ),
            kind: frame_kind,
            ver,
            payload,
        }
    }

    /// The frame that a node's write of this content makes at a counter.
    pub open spec fn frame_at(
        self,
        node: u16,
        counter: u64,
        frame_kind: u8,
        ver: u64,
        payload: Seq<u8>,
    ) -> FrameView {
        FrameView {
            id: NetId64::of(self.geometry.kind, node, counter),
            kind: frame_kind,
            ver,
            payload,
        }
    }

    /// The segment after the frame of a counter was committed to its slot. The
    /// lane's head stays.
    pub open spec fn commit(self, lane: int, counter: u64, frame: FrameView) -> ShmView {
        let index = counter as int % self.geometry.spec.capacity as int;
        ShmView {
            lanes: self.lanes.update(
                lane,
                ShmLaneView {
                    slots: self.lanes[lane].slots.update(
                        index,
                        self.lanes[lane].slots[index].commit(counter, frame),
                    ),
                    ..self.lanes[lane]
                },
            ),
            ..self
        }
    }

    /// The segment after the head of a lane was moved.
    pub open spec fn moved(self, lane: int, head: u64) -> ShmView {
        ShmView {
            lanes: self.lanes.update(lane, ShmLaneView { head, ..self.lanes[lane] }),
            ..self
        }
    }

    /// The segment after the frames of these payloads were committed, from the
    /// counter `start` on. The lane's head stays.
    pub open spec fn commit_all(
        self,
        node: u16,
        frame_kind: u8,
        ver: u64,
        start: u64,
        payloads: Seq<Seq<u8>>,
    ) -> ShmView
        decreases payloads.len(),
    {
        if payloads.len() == 0 {
            self
        } else {
            let counter = (start + (payloads.len() - 1)) as u64;
            self.commit_all(node, frame_kind, ver, start, payloads.drop_last()).commit(
                self.geometry.spec.lane_of(node),
                counter,
                self.frame_at(node, counter, frame_kind, ver, payloads.last()),
            )
        }
    }

    /// The segment after one frame was published at the head of a lane: it was
    /// committed, and the head moved past it.
    pub open spec fn publish(self, lane: int, frame: FrameView) -> ShmView {
        let head = self.lanes[lane].head;
        self.commit(lane, head, frame).moved(lane, (head + 1) as u64)
    }

    /// The segment after a node published these payloads one after the other.
    pub open spec fn publish_all(
        self,
        node: u16,
        frame_kind: u8,
        ver: u64,
        payloads: Seq<Seq<u8>>,
    ) -> ShmView
        decreases payloads.len(),
    {
        if payloads.len() == 0 {
            self
        } else {
            let before = self.publish_all(node, frame_kind, ver, payloads.drop_last());
            before.publish(
                self.geometry.spec.lane_of(node),
                before.next_frame(node, frame_kind, ver, payloads.last()),
            )
        }
    }

    /// What the slot addressed by an id holds, when it carries that counter.
    pub open spec fn lookup(self, id: NetId64) -> Option<FrameView> {
        if kind_of(id.0) != self.geometry.kind || !self.geometry.serves(node_of(id.0)) {
            None
        } else {
            match self.slot(self.geometry.spec.lane_of(node_of(id.0)), counter_of(id.0)).frame() {
                Some(frame) => if counter_of(frame.id.0) == counter_of(id.0) {
                    Some(frame)
                } else {
                    None
                },
                None => None,
            }
        }
    }

    /// The most recent frame of a lane, when its slot carries it. A slot whose frame
    /// is still being written carries another one, or none.
    pub open spec fn latest(self, lane: int) -> Option<FrameView> {
        let head = self.lanes[lane].head;
        if head == 0 {
            None
        } else {
            match self.slot(lane, (head - 1) as u64).frame() {
                Some(frame) => if counter_of(frame.id.0) == cut_counter((head - 1) as u64) {
                    Some(frame)
                } else {
                    None
                },
                None => None,
            }
        }
    }

    /// What a walking reader finds at a counter of a lane.
    pub open spec fn state(self, lane: int, counter: u64) -> ReadView {
        self.slot(lane, counter).state(self.geometry.spec.topology, counter)
    }
}

proof fn lemma_same_slot(one: Seq<u8>, other: Seq<u8>, at: int, payload_capacity: int)
    requires
        0 <= at,
        0 <= payload_capacity,
        at + SLOT_HEADER_SIZE + payload_capacity <= one.len(),
        one.len() == other.len(),
        agree(one, other, at, at + SLOT_HEADER_SIZE + payload_capacity),
    ensures
        slot_view(one, at, payload_capacity) == slot_view(other, at, payload_capacity),
{
    lemma_same_u64(one, other, at);
    lemma_same_u64(one, other, at + 8);
    lemma_same_u64(one, other, at + 16);
    lemma_same_u32(one, other, at + 24);
    assert(slot_view(one, at, payload_capacity).payload =~= slot_view(
        other,
        at,
        payload_capacity,
    ).payload);
}

proof fn lemma_same_header(geometry: ShmGeometry, one: Seq<u8>, other: Seq<u8>)
    requires
        agree(one, other, 8, 36),
    ensures
        geometry.header_error(one) == geometry.header_error(other),
        agree(one, other, 36, 40) ==> u32_at(one, 36) == u32_at(other, 36),
{
    lemma_same_u64(one, other, 8);
    lemma_same_u32(one, other, 16);
    lemma_same_u32(one, other, 20);
    lemma_same_u32(one, other, 24);
    lemma_same_u32(one, other, 28);
    lemma_same_u16(one, other, 34);
    if agree(one, other, 36, 40) {
        lemma_same_u32(one, other, 36);
    }
}

proof fn lemma_slot_written(
    before: Seq<u8>,
    after: Seq<u8>,
    at: int,
    payload_capacity: int,
    counter: u64,
    frame: FrameView,
)
    requires
        0 <= at,
        frame.payload.len() <= payload_capacity <= u32::MAX,
        at + SLOT_HEADER_SIZE + payload_capacity <= before.len(),
        before.len() == after.len(),
        stands_at(after, at, le64(committed_seq(counter))),
        stands_at(after, at + 8, fields(frame)),
        stands_at(after, at + 32, frame.payload),
        agree(after, before, at + 32 + frame.payload.len(), at + 32 + payload_capacity),
    ensures
        slot_view(after, at, payload_capacity) == slot_view(before, at, payload_capacity).commit(
            counter,
            frame,
        ),
{
    let seen = slot_view(after, at, payload_capacity);
    let old_slot = slot_view(before, at, payload_capacity);
    lemma_read_u64(after, at, committed_seq(counter));
    let bytes = fields(frame);
    lemma_stands_part(after, at + 8, bytes, 0, 8);
    lemma_stands_part(after, at + 8, bytes, 8, 16);
    lemma_stands_part(after, at + 8, bytes, 16, 20);
    assert(bytes.subrange(0, 8) =~= le64(frame.id.0));
    assert(bytes.subrange(8, 16) =~= le64(frame.ver));
    assert(bytes.subrange(16, 20) =~= le32(frame.payload.len() as u32));
    lemma_read_u64(after, at + 8, frame.id.0);
    lemma_read_u64(after, at + 16, frame.ver);
    lemma_read_u32(after, at + 24, frame.payload.len() as u32);
    assert(after.subrange(at + 8, at + 8 + 21)[20] == bytes[20]);
    let len = frame.payload.len() as int;
    let rest = old_slot.payload.subrange(len, old_slot.payload.len() as int);
    let place = after.subrange(at + 32, at + 32 + len);
    assert forall|i: int| 0 <= i < payload_capacity implies #[trigger] seen.payload[i] == (
    frame.payload + rest)[i] by {
        if i < len {
            assert(place[i] == after[at + 32 + i]);
        } else {
            assert(after[at + 32 + i] == before[at + 32 + i]);
        }
    }
    assert(seen.payload =~= frame.payload + rest);
}

/// The bytes of a committed frame change only its slot.
proof fn lemma_slot_changed(
    geometry: ShmGeometry,
    before: Seq<u8>,
    after: Seq<u8>,
    lane: int,
    counter: u64,
    frame: FrameView,
)
    requires
        geometry.wf(),
        before.len() == geometry.size,
        after.len() == geometry.size,
        0 <= lane < geometry.lane_count,
        ({
            let view = segment_view(geometry, before);
            let index = counter as int % geometry.spec.capacity as int;
            let at = geometry.slot_start(lane, index);
            &&& slot_view(after, at, geometry.spec.payload_capacity as int)
                == view.lanes[lane].slots[index].commit(counter, frame)
            &&& forall|i: int|
                0 <= i < geometry.size && !(at <= i < at + geometry.slot_stride)
                    ==> #[trigger] after[i] == before[i]
        }),
    ensures
        segment_view(geometry, after) == segment_view(geometry, before).commit(
            lane,
            counter,
            frame,
        ),
        geometry.header_error(after) == geometry.header_error(before),
{
    lemma_sizes(geometry);
    let old_view = segment_view(geometry, before);
    let view = segment_view(geometry, after);
    let capacity = geometry.spec.capacity as int;
    let payload_capacity = geometry.spec.payload_capacity as int;
    let index = counter as int % capacity;
    vstd::arithmetic::div_mod::lemma_mod_bound(counter as int, capacity);
    let at = geometry.slot_start(lane, index);
    lemma_slot_fits(geometry, lane, index);
    assert(agree(after, before, 0, geometry.slots_offset as int));
    lemma_same_header(geometry, after, before);
    lemma_same_u64(after, before, 0);
    let target = old_view.commit(lane, counter, frame);
    assert forall|l: int| 0 <= l < geometry.lane_count implies #[trigger] view.lanes[l]
        == target.lanes[l] by {
        assert(geometry.lane_start(l) + 64 <= geometry.slots_offset);
        lemma_same_u64(after, before, geometry.lane_start(l));
        assert forall|i: int| 0 <= i < capacity && (l != lane || i != index) implies slot_view(
            after,
            geometry.slot_start(l, i),
            payload_capacity,
        ) == #[trigger] slot_view(before, geometry.slot_start(l, i), payload_capacity) by {
            lemma_slot_fits(geometry, l, i);
            lemma_slots_apart(geometry, l, i, lane, index);
            lemma_same_slot(after, before, geometry.slot_start(l, i), payload_capacity);
        }
        assert(view.lanes[l].slots =~= target.lanes[l].slots) by {
            assert forall|i: int| 0 <= i < capacity implies #[trigger] view.lanes[l].slots[i]
                == target.lanes[l].slots[i] by {
                assert(view.lanes[l].slots[i] == slot_view(
                    after,
                    geometry.slot_start(l, i),
                    payload_capacity,
                ));
                assert(old_view.lanes[l].slots[i] == slot_view(
                    before,
                    geometry.slot_start(l, i),
                    payload_capacity,
                ));
            }
        }
    }
    assert(view.lanes =~= target.lanes);
}

/// The bytes of a segment after the frame of a counter was stored in its slot: the
/// sequence word while writing, the fields, the payload, and the committed word.
spec fn stored(
    geometry: ShmGeometry,
    bytes: Seq<u8>,
    lane: int,
    counter: u64,
    frame: FrameView,
) -> Seq<u8> {
    let at = geometry.slot_start(lane, counter as int % geometry.spec.capacity as int);
    let b1 = overwrite(bytes, at, le64(writing_seq(counter)));
    let b2 = overwrite(b1, at + 8, fields(frame));
    let b3 = overwrite(b2, at + SLOT_HEADER_SIZE, frame.payload);
    overwrite(b3, at, le64(committed_seq(counter)))
}

proof fn lemma_stored(
    geometry: ShmGeometry,
    bytes: Seq<u8>,
    lane: int,
    counter: u64,
    frame: FrameView,
)
    requires
        geometry.wf(),
        bytes.len() == geometry.size,
        0 <= lane < geometry.lane_count,
        frame.payload.len() <= geometry.spec.payload_capacity,
    ensures
        stored(geometry, bytes, lane, counter, frame).len() == geometry.size,
        segment_view(geometry, stored(geometry, bytes, lane, counter, frame)) == segment_view(
            geometry,
            bytes,
        ).commit(lane, counter, frame),
        geometry.header_error(stored(geometry, bytes, lane, counter, frame))
            == geometry.header_error(bytes),
{
    lemma_sizes(geometry);
    let capacity = geometry.spec.capacity as int;
    let payload_capacity = geometry.spec.payload_capacity as int;
    let index = counter as int % capacity;
    vstd::arithmetic::div_mod::lemma_mod_bound(counter as int, capacity);
    lemma_slot_fits(geometry, lane, index);
    let at = geometry.slot_start(lane, index);
    let b1 = overwrite(bytes, at, le64(writing_seq(counter)));
    let b2 = overwrite(b1, at + 8, fields(frame));
    let b3 = overwrite(b2, at + SLOT_HEADER_SIZE, frame.payload);
    let b4 = stored(geometry, bytes, lane, counter, frame);
    lemma_overwrite(bytes, at, le64(writing_seq(counter)));
    lemma_overwrite(b1, at + 8, fields(frame));
    lemma_overwrite(b2, at + 32, frame.payload);
    lemma_overwrite(b3, at, le64(committed_seq(counter)));
    lemma_stands_kept(b2, b3, at + 8, fields(frame));
    lemma_stands_kept(b3, b4, at + 8, fields(frame));
    lemma_stands_kept(b3, b4, at + 32, frame.payload);
    assert(agree(b4, bytes, at + 32 + frame.payload.len(), at + 32 + payload_capacity));
    lemma_slot_written(bytes, b4, at, payload_capacity, counter, frame);
    assert(segment_view(geometry, bytes).lanes[lane].slots[index] == slot_view(
        bytes,
        at,
        payload_capacity,
    ));
    lemma_slot_changed(geometry, bytes, b4, lane, counter, frame);
}

/// The bytes of a lane's head, when another one is stored, change only the head.
proof fn lemma_head_stored(geometry: ShmGeometry, bytes: Seq<u8>, lane: int, head: u64)
    requires
        geometry.wf(),
        bytes.len() == geometry.size,
        0 <= lane < geometry.lane_count,
    ensures
        ({
            let after = overwrite(bytes, geometry.lane_start(lane), le64(head));
            &&& after.len() == geometry.size
            &&& segment_view(geometry, after) == segment_view(geometry, bytes).moved(lane, head)
            &&& geometry.header_error(after) == geometry.header_error(bytes)
        }),
{
    lemma_sizes(geometry);
    let start = geometry.lane_start(lane);
    let after = overwrite(bytes, start, le64(head));
    let capacity = geometry.spec.capacity as int;
    assert(64 <= start && start + 64 <= geometry.slots_offset);
    lemma_overwrite(bytes, start, le64(head));
    lemma_read_u64(after, start, head);
    assert(agree(after, bytes, 0, 64));
    lemma_same_header(geometry, after, bytes);
    lemma_same_u64(after, bytes, 0);
    let view = segment_view(geometry, after);
    let target = segment_view(geometry, bytes).moved(lane, head);
    assert forall|l: int| 0 <= l < geometry.lane_count implies #[trigger] view.lanes[l]
        == target.lanes[l] by {
        if l != lane {
            assert(agree(after, bytes, geometry.lane_start(l), geometry.lane_start(l) + 8));
            lemma_same_u64(after, bytes, geometry.lane_start(l));
        }
        assert(view.lanes[l].slots =~= target.lanes[l].slots) by {
            assert forall|i: int| 0 <= i < capacity implies #[trigger] view.lanes[l].slots[i]
                == target.lanes[l].slots[i] by {
                lemma_slot_fits(geometry, l, i);
                lemma_same_slot(
                    after,
                    bytes,
                    geometry.slot_start(l, i),
                    geometry.spec.payload_capacity as int,
                );
            }
        }
    }
    assert(view.lanes =~= target.lanes);
}

/// Moving the head of a lane and committing frames to it can be done in either
/// order.
pub proof fn lemma_commits_and_moves(
    view: ShmView,
    node: u16,
    frame_kind: u8,
    ver: u64,
    start: u64,
    payloads: Seq<Seq<u8>>,
    head: u64,
)
    requires
        view.geometry.serves(node),
        view.lanes.len() == view.geometry.lane_count,
    ensures
        ({
            let lane = view.geometry.spec.lane_of(node);
            let committed = view.commit_all(node, frame_kind, ver, start, payloads);
            &&& view.moved(lane, head).commit_all(node, frame_kind, ver, start, payloads)
                == committed.moved(lane, head)
            &&& committed.geometry == view.geometry
            &&& committed.lanes.len() == view.lanes.len()
            &&& forall|l: int|
                0 <= l < view.lanes.len() ==> (#[trigger] committed.lanes[l]).head
                    == view.lanes[l].head
            &&& committed.version == view.version
            &&& committed.notification == view.notification
        }),
    decreases payloads.len(),
{
    let lane = view.geometry.spec.lane_of(node);
    if payloads.len() > 0 {
        let shorter = payloads.drop_last();
        lemma_commits_and_moves(view, node, frame_kind, ver, start, shorter, head);
        let before = view.commit_all(node, frame_kind, ver, start, shorter);
        let counter = (start + (payloads.len() - 1)) as u64;
        let frame = view.frame_at(node, counter, frame_kind, ver, payloads.last());
        assert(before.moved(lane, head).commit(lane, counter, frame).lanes =~= before.commit(
            lane,
            counter,
            frame,
        ).moved(lane, head).lanes);
    }
}

/// To publish payloads one after the other is to commit them all, and then to move
/// the head past them.
pub proof fn lemma_publish_all(
    view: ShmView,
    node: u16,
    frame_kind: u8,
    ver: u64,
    payloads: Seq<Seq<u8>>,
)
    requires
        view.geometry.serves(node),
        view.lanes.len() == view.geometry.lane_count,
        view.lanes[view.geometry.spec.lane_of(node)].head + payloads.len() <= u64::MAX,
    ensures
        ({
            let lane = view.geometry.spec.lane_of(node);
            let head = view.lanes[lane].head;
            view.publish_all(node, frame_kind, ver, payloads) == view.commit_all(
                node,
                frame_kind,
                ver,
                head,
                payloads,
            ).moved(lane, (head + payloads.len()) as u64)
        }),
    decreases payloads.len(),
{
    let lane = view.geometry.spec.lane_of(node);
    let head = view.lanes[lane].head;
    let all = view.commit_all(node, frame_kind, ver, head, payloads);
    if payloads.len() > 0 {
        let shorter = payloads.drop_last();
        lemma_publish_all(view, node, frame_kind, ver, shorter);
        lemma_commits_and_moves(view, node, frame_kind, ver, head, shorter, head);
        let committed = view.commit_all(node, frame_kind, ver, head, shorter);
        let counter = (head + (payloads.len() - 1)) as u64;
        let frame = view.frame_at(node, counter, frame_kind, ver, payloads.last());
        let before = committed.moved(lane, counter);
        assert(before.next_frame(node, frame_kind, ver, payloads.last()) == frame);
        assert(before.publish(lane, frame).lanes =~= all.moved(
            lane,
            (head + payloads.len()) as u64,
        ).lanes);
    } else {
        assert(view.moved(lane, head).lanes =~= view.lanes);
    }
}

/// A ring over the bytes of one segment.
pub struct ShmRing {
    geometry: ShmGeometry,
    segment: Vec<u8>,
    created: bool,
}

impl View for ShmRing {
    type V = ShmView;

    closed spec fn view(&self) -> ShmView {
        segment_view(self.geometry, self.segment@)
    }
}

fn store_u64(segment: &mut Vec<u8>, at: usize, value: u64)
    requires
        at + 8 <= old(segment)@.len(),
    ensures
        final(segment)@ == overwrite(old(segment)@, at as int, le64(value)),
{
    let mut word: Vec<u8> = Vec::new();
    push_u64(&mut word, value);
    assert(word@ =~= le64(value));
    write_over(segment, at, word.as_slice());
}

impl ShmRing {
    /// The segment's bytes, as a specification.
    pub closed spec fn bytes(&self) -> Seq<u8> {
        self.segment@
    }

    /// True for the handle that initialised the segment, as a specification.
    pub closed spec fn is_creator(&self) -> bool {
        self.created
    }

    /// A segment of the geometry's size whose header fits the geometry.
    pub open spec fn wf(&self) -> bool {
        &&& self@.geometry.wf()
        &&& self.bytes().len() == self@.geometry.size
        &&& self@.geometry.header_error(self.bytes()) is None
        &&& self@ == segment_view(self@.geometry, self.bytes())
    }

    /// What a segment holds has the shape that its geometry names.
    pub proof fn lemma_shape(&self)
        requires
            self.wf(),
        ensures
            self@.shaped(),
    {
        lemma_sizes(self@.geometry);
        assert forall|lane: int, index: int|
            0 <= lane < self@.lanes.len() && 0 <= index < self@.geometry.spec.capacity implies (
        #[trigger] self@.lanes[lane].slots[index]).payload.len()
            == self@.geometry.spec.payload_capacity by {
            lemma_slot_fits(self@.geometry, lane, index);
        }
    }

    /// Opens the ring of a single-member fleet. See
    /// [`ShmRing::open_or_create_for_fleet`].
    pub fn open_or_create(kind: u8, spec: RingSpec, existing: Option<Vec<u8>>) -> (ring: Result<
        ShmRing,
        ShmError,
    >)
        ensures
            opened(kind, spec, 1, existing, ring),
    {
        ShmRing::open_or_create_for_fleet(kind, spec, 1, existing)
    }

    /// Opens a ring over an existing segment, or over a fresh one that is
    /// initialised here. An existing segment may be larger than the ring needs;
    /// its header must carry the same geometry.
    pub fn open_or_create_for_fleet(
        kind: u8,
        spec: RingSpec,
        fleet_capacity: u16,
        existing: Option<Vec<u8>>,
    ) -> (ring: Result<ShmRing, ShmError>)
        ensures
            opened(kind, spec, fleet_capacity, existing, ring),
    {
        let geometry = match ShmGeometry::plan(kind, spec, fleet_capacity) {
            Ok(geometry) => geometry,
            Err(error) => {
                return Err(error);
            },
        };
        proof {
            lemma_sizes(geometry);
        }
        match existing {
            None => {
                let mut segment: Vec<u8> = zeroes(geometry.size);
                let ghost blank = segment@;
                let header = geometry.initial_header();
                write_over(&mut segment, 0, header.as_slice());
                proof {
                    lemma_overwrite(blank, 0, header@);
                    law_own_header_passes(geometry, segment@);
                    lemma_fresh(geometry, segment@);
                }
                Ok(ShmRing { geometry, segment, created: true })
            },
            Some(segment) => {
                if segment.len() < geometry.size {
                    return Err(
                        ShmError::SegmentTooSmall {
                            actual: segment.len(),
                            requested: geometry.size,
                        },
                    );
                }
                let mut mapped: Vec<u8> = segment;
                let ghost whole = mapped@;
                mapped.truncate(geometry.size);
                proof {
                    assert(mapped@ =~= whole.subrange(0, geometry.size as int));
                    assert(agree(mapped@, whole, 0, 64));
                    lemma_same_header(geometry, mapped@, whole);
                }
                match geometry.check_header(mapped.as_slice()) {
                    Ok(_) => Ok(ShmRing { geometry, segment: mapped, created: false }),
                    Err(error) => Err(error),
                }
            },
        }
    }

    /// True for the handle that initialised the segment.
    pub fn created(&self) -> (created: bool)
        ensures
            created == self.is_creator(),
    {
        self.created
    }

    /// A copy of the segment's bytes: what another process that maps it finds.
    pub fn segment(&self) -> (bytes: Vec<u8>)
        ensures
            bytes@ == self.bytes(),
    {
        to_vec(self.segment.as_slice())
    }

    /// The kind this ring carries.
    pub fn kind(&self) -> (kind: u8)
        ensures
            kind == self@.geometry.kind,
    {
        self.geometry.kind
    }

    /// Slots per lane.
    pub fn capacity(&self) -> (capacity: usize)
        ensures
            capacity == self@.geometry.spec.capacity,
    {
        self.geometry.spec.capacity
    }

    /// Number of lanes.
    pub fn lane_count(&self) -> (count: usize)
        ensures
            count == self@.geometry.lane_count,
    {
        self.geometry.lane_count
    }

    /// Largest payload of a slot.
    pub fn payload_capacity(&self) -> (payload_capacity: usize)
        ensures
            payload_capacity == self@.geometry.spec.payload_capacity,
    {
        self.geometry.spec.payload_capacity
    }

    /// The ring's geometry.
    pub fn spec(&self) -> (spec: RingSpec)
        ensures
            spec == self@.geometry.spec,
    {
        self.geometry.spec
    }

    pub(crate) fn load_head(&self, lane: usize) -> (head: u64)
        requires
            self.wf(),
            lane < self@.geometry.lane_count,
        ensures
            head == self@.lanes[lane as int].head,
    {
        let offset: usize = self.geometry.lane_offset(lane);
        read_u64(self.segment.as_slice(), offset)
    }

    /// Head of the sole lane, or of lane zero of a per-node ring.
    pub fn head(&self) -> (head: u64)
        requires
            self.wf(),
        ensures
            head == self@.lanes[0].head,
    {
        self.load_head(0)
    }

    /// Head of a node's lane.
    pub fn lane_head(&self, node_id: NodeId) -> (head: u64)
        requires
            self.wf(),
            self@.geometry.serves(node_id.0),
        ensures
            head == self@.lanes[self@.geometry.spec.lane_of(node_id.0)].head,
    {
        let lane: usize = self.geometry.lane_index(node_id.0);
        self.load_head(lane)
    }

    /// The version allocated last by any process attached to the segment.
    pub fn current_version(&self) -> (version: u64)
        requires
            self.wf(),
        ensures
            version == self@.version,
    {
        proof {
            lemma_sizes(self.geometry);
        }
        read_u64(self.segment.as_slice(), 0)
    }

    /// Allocates one non-zero version shared by every lane and process.
    pub fn next_version(&mut self) -> (version: u64)
        requires
            old(self).wf(),
            old(self)@.version < u64::MAX,
        ensures
            version == old(self)@.version + 1,
            final(self)@ == (ShmView { version, ..old(self)@ }),
            final(self).wf(),
            final(self).is_creator() == old(self).is_creator(),
    {
        let version: u64 = self.current_version() + 1;
        let ghost before = self.segment@;
        proof {
            lemma_sizes(self.geometry);
        }
        store_u64(&mut self.segment, 0, version);
        proof {
            lemma_overwrite(before, 0, le64(version));
            lemma_read_u64(self.segment@, 0, version);
            lemma_same_header(self.geometry, self.segment@, before);
            lemma_beyond_header(self.geometry, self.segment@, before);
            assert(self@ =~= ShmView { version, ..old(self)@ });
        }
        version
    }

    /// The word that changes with every notification.
    pub fn notification(&self) -> (generation: u32)
        requires
            self.wf(),
        ensures
            generation == self@.notification,
    {
        proof {
            lemma_sizes(self.geometry);
        }
        read_u32(self.segment.as_slice(), 36)
    }

    /// Tells whoever waits on the segment that it has changed.
    pub fn notify(&mut self)
        requires
            old(self).wf(),
        ensures
            final(self)@ == (ShmView {
                notification: next_notification(old(self)@.notification),
                ..old(self)@
            }),
            final(self).wf(),
            final(self).is_creator() == old(self).is_creator(),
    {
        let generation: u32 = self.notification().wrapping_add(1);
        assert(generation == next_notification(self@.notification));
        let ghost before = self.segment@;
        proof {
            lemma_sizes(self.geometry);
        }
        let mut bytes: Vec<u8> = Vec::new();
        push_u32(&mut bytes, generation);
        assert(bytes@ =~= le32(generation));
        write_over(&mut self.segment, 36, bytes.as_slice());
        proof {
            lemma_overwrite(before, 36, le32(generation));
            lemma_read_u32(self.segment@, 36, generation);
            lemma_same_header(self.geometry, self.segment@, before);
            lemma_same_u64(self.segment@, before, 0);
            lemma_beyond_header(self.geometry, self.segment@, before);
            assert(self@ =~= ShmView { notification: generation, ..old(self)@ });
        }
    }

    /// Commits a frame to the slot of a counter. The lane's head stays.
    fn commit_slot(
        &mut self,
        lane: usize,
        node_id: NodeId,
        counter: u64,
        frame_kind: u8,
        ver: u64,
        payload: &[u8],
    ) -> (id: NetId64)
        requires
            old(self).wf(),
            old(self)@.geometry.serves(node_id.0),
            lane == old(self)@.geometry.spec.lane_of(node_id.0),
            counter <= LAST_COUNTER,
            payload@.len() <= old(self)@.geometry.spec.payload_capacity,
        ensures
            id == NetId64::of(old(self)@.geometry.kind, node_id.0, counter),
            final(self)@ == old(self)@.commit(
                lane as int,
                counter,
                old(self)@.frame_at(node_id.0, counter, frame_kind, ver, payload@),
            ),
            final(self).wf(),
            final(self).is_creator() == old(self).is_creator(),
    {
        let at: usize = self.geometry.slot_offset(lane, counter);
        let plan = plan_write(self.geometry.kind, node_id.0, counter, frame_kind, ver, payload);
        let ghost frame = self@.frame_at(node_id.0, counter, frame_kind, ver, payload@);
        proof {
            lemma_sizes(self.geometry);
            lemma_stored(self.geometry, self.segment@, lane as int, counter, frame);
        }
        store_u64(&mut self.segment, at, plan.writing);
        write_over(&mut self.segment, at + 8, plan.fields.as_slice());
        write_over(&mut self.segment, at + SLOT_HEADER_SIZE, payload);
        store_u64(&mut self.segment, at, plan.committed);
        plan.id
    }

    /// Moves the head of a lane.
    fn store_head(&mut self, lane: usize, head: u64)
        requires
            old(self).wf(),
            lane < old(self)@.geometry.lane_count,
        ensures
            final(self)@ == old(self)@.moved(lane as int, head),
            final(self).wf(),
            final(self).is_creator() == old(self).is_creator(),
    {
        let start: usize = self.geometry.lane_offset(lane);
        proof {
            lemma_sizes(self.geometry);
            lemma_head_stored(self.geometry, self.segment@, lane as int, head);
        }
        store_u64(&mut self.segment, start, head);
    }

    /// Appends a frame and returns its id. A payload beyond the slot's size is
    /// refused and nothing is written.
    pub fn write(
        &mut self,
        node_id: NodeId,
        frame_kind: u8,
        ver: u64,
        payload: Bytes,
    ) -> (id: Result<NetId64, ShmError>)
        requires
            old(self).wf(),
            old(self)@.geometry.serves(node_id.0),
            octets(payload).len() <= old(self)@.geometry.spec.payload_capacity
                ==> old(self)@.lanes[old(self)@.geometry.spec.lane_of(node_id.0)].head
                <= LAST_COUNTER,
        ensures
            final(self).wf(),
            final(self).is_creator() == old(self).is_creator(),
            ({
                let max = old(self)@.geometry.spec.payload_capacity;
                let frame = old(self)@.next_frame(node_id.0, frame_kind, ver, octets(payload));
                if octets(payload).len() > max {
                    &&& id is Err
                    &&& id->Err_0 matches ShmError::PayloadTooLarge { len, max: limit }
                        && len == octets(payload).len() && limit == max
                    &&& final(self)@ == old(self)@
                } else {
                    &&& id == Ok::<NetId64, ShmError>(frame.id)
                    &&& final(self)@ == old(self)@.publish(
                        old(self)@.geometry.spec.lane_of(node_id.0),
                        frame,
                    )
                }
            }),
    {
        let bytes: &[u8] = octets::as_slice(&payload);
        if bytes.len() > self.geometry.spec.payload_capacity {
            return Err(
                ShmError::PayloadTooLarge {
                    len: bytes.len(),
                    max: self.geometry.spec.payload_capacity,
                },
            );
        }
        let lane: usize = self.geometry.lane_index(node_id.0);
        let counter: u64 = self.load_head(lane);
        let ghost before = self@;
        let ghost frame = before.next_frame(node_id.0, frame_kind, ver, bytes@);
        if self.geometry.spec.topology == RingTopology::Shared {
            self.store_head(lane, counter + 1);
            let id = self.commit_slot(lane, node_id, counter, frame_kind, ver, bytes);
            assert(self@.lanes =~= before.publish(lane as int, frame).lanes);
            Ok(id)
        } else {
            let id = self.commit_slot(lane, node_id, counter, frame_kind, ver, bytes);
            self.store_head(lane, counter + 1);
            Ok(id)
        }
    }

    /// Commits the frames of payloads that fit, from the counter `start` on, and
    /// returns their ids. No head moves: a reader of a lane whose head counts
    /// commits sees none of the frames yet.
    pub fn commit_batch(
        &mut self,
        node_id: NodeId,
        frame_kind: u8,
        ver: u64,
        start: u64,
        payloads: &Vec<Bytes>,
    ) -> (ids: Vec<NetId64>)
        requires
            old(self).wf(),
            old(self)@.geometry.serves(node_id.0),
            start + payloads@.len() <= LAST_COUNTER + 1,
            batch_error(old(self)@.geometry.spec, all_octets(payloads@)) is None,
        ensures
            final(self).wf(),
            final(self).is_creator() == old(self).is_creator(),
            final(self)@ == old(self)@.commit_all(
                node_id.0,
                frame_kind,
                ver,
                start,
                all_octets(payloads@),
            ),
            forall|lane: int|
                0 <= lane < old(self)@.lanes.len() ==> (#[trigger] final(self)@.lanes[lane]).head
                    == old(self)@.lanes[lane].head,
            ids@ == Seq::new(
                payloads@.len(),
                |i: int| NetId64::of(old(self)@.geometry.kind, node_id.0, (start + i) as u64),
            ),
    {
        let ghost contents = all_octets(payloads@);
        let ghost spec = self@.geometry.spec;
        let ghost before = self@;
        proof {
            lemma_all_fit(contents, spec.payload_capacity as int);
        }
        let lane: usize = self.geometry.lane_index(node_id.0);
        let mut ids: Vec<NetId64> = Vec::new();
        let mut next: usize = 0;
        assert(contents.subrange(0, 0) =~= Seq::<Seq<u8>>::empty());
        while next < payloads.len()
            invariant
                before == old(self)@,
                contents == all_octets(payloads@),
                next <= payloads@.len(),
                self.wf(),
                self.is_creator() == old(self).is_creator(),
                self@.geometry == before.geometry,
                self@.geometry.spec == spec,
                self@.geometry.serves(node_id.0),
                lane == spec.lane_of(node_id.0),
                start + payloads@.len() <= LAST_COUNTER + 1,
                forall|i: int|
                    0 <= i < payloads@.len() ==> (#[trigger] contents[i]).len()
                        <= spec.payload_capacity,
                self@ == before.commit_all(
                    node_id.0,
                    frame_kind,
                    ver,
                    start,
                    contents.subrange(0, next as int),
                ),
                ids@ == Seq::new(
                    next as nat,
                    |i: int| NetId64::of(before.geometry.kind, node_id.0, (start + i) as u64),
                ),
            decreases payloads@.len() - next,
        {
            let ghost prefix = contents.subrange(0, next + 1);
            assert(contents[next as int] == octets(payloads@[next as int]));
            let id = self.commit_slot(
                lane,
                node_id,
                start + next as u64,
                frame_kind,
                ver,
                octets::as_slice(&payloads[next]),
            );
            ids.push(id);
            next = next + 1;
            proof {
                assert(prefix.drop_last() =~= contents.subrange(0, next - 1));
                assert(prefix.last() == contents[next - 1]);
                assert(ids@ =~= Seq::new(
                    next as nat,
                    |i: int| NetId64::of(before.geometry.kind, node_id.0, (start + i) as u64),
                ));
            }
        }
        assert(contents.subrange(0, payloads@.len() as int) =~= contents);
        proof {
            lemma_commits_and_moves(
                before,
                node_id.0,
                frame_kind,
                ver,
                start,
                contents,
                0,
            );
        }
        ids
    }

    /// Appends a batch to one lane and returns its consecutive ids. A batch
    /// larger than the ring, or one with a payload beyond the slot's size, is
    /// refused and nothing is written. The head of a lane whose head counts commits
    /// moves once, when the whole batch is committed.
    pub fn write_batch(
        &mut self,
        node_id: NodeId,
        frame_kind: u8,
        ver: u64,
        payloads: Vec<Bytes>,
    ) -> (ids: Result<Vec<NetId64>, ShmError>)
        requires
            old(self).wf(),
            old(self)@.geometry.serves(node_id.0),
            batch_error(old(self)@.geometry.spec, all_octets(payloads@)) is None
                ==> old(self)@.lanes[old(self)@.geometry.spec.lane_of(node_id.0)].head
                + payloads@.len() <= LAST_COUNTER + 1,
        ensures
            final(self).wf(),
            final(self).is_creator() == old(self).is_creator(),
            match batch_error(old(self)@.geometry.spec, all_octets(payloads@)) {
                Some(error) => ids == Err::<Vec<NetId64>, ShmError>(error) && final(self)@
                    == old(self)@,
                None => {
                    &&& ids is Ok
                    &&& ids->Ok_0@ == Seq::new(
                        payloads@.len(),
                        |i: int|
                            NetId64::of(
                                old(self)@.geometry.kind,
                                node_id.0,
                                (old(self)@.lanes[old(self)@.geometry.spec.lane_of(node_id.0)].head
                                    + i) as u64,
                            ),
                    )
                    &&& final(self)@ == old(self)@.publish_all(
                        node_id.0,
                        frame_kind,
                        ver,
                        all_octets(payloads@),
                    )
                },
            },
    {
        match check_batch(self.geometry.spec, &payloads) {
            Ok(_) => {},
            Err(error) => {
                return Err(error);
            },
        }
        if payloads.len() == 0 {
            let ids: Vec<NetId64> = Vec::new();
            assert(ids@ =~= Seq::new(
                0,
                |i: int|
                    NetId64::of(
                        self@.geometry.kind,
                        node_id.0,
                        (self@.lanes[self@.geometry.spec.lane_of(node_id.0)].head + i) as u64,
                    ),
            ));
            return Ok(ids);
        }
        let lane: usize = self.geometry.lane_index(node_id.0);
        let start: u64 = self.load_head(lane);
        let end: u64 = start + payloads.len() as u64;
        proof {
            lemma_publish_all(self@, node_id.0, frame_kind, ver, all_octets(payloads@));
            lemma_commits_and_moves(
                self@,
                node_id.0,
                frame_kind,
                ver,
                start,
                all_octets(payloads@),
                end,
            );
        }
        if self.geometry.spec.topology == RingTopology::Shared {
            self.store_head(lane, end);
            Ok(self.commit_batch(node_id, frame_kind, ver, start, &payloads))
        } else {
            let ids = self.commit_batch(node_id, frame_kind, ver, start, &payloads);
            self.store_head(lane, end);
            Ok(ids)
        }
    }

    /// One copy of the slot that a counter falls into.
    fn copy_slot(&self, lane: usize, counter: u64) -> (copy: SlotCopy<'_>)
        requires
            self.wf(),
            lane < self@.geometry.lane_count,
        ensures
            copy.bytes@.len() == SLOT_HEADER_SIZE + self@.geometry.spec.payload_capacity,
            copy.seq_before == self@.slot(lane as int, counter).seq,
            copied(copy, self@.geometry.spec.payload_capacity as int) == self@.slot(
                lane as int,
                counter,
            ).frame(),
    {
        let at: usize = self.geometry.slot_offset(lane, counter);
        proof {
            lemma_sizes(self.geometry);
            vstd::arithmetic::div_mod::lemma_mod_bound(
                counter as int,
                self.geometry.spec.capacity as int,
            );
        }
        let end: usize = at + (SLOT_HEADER_SIZE + self.geometry.spec.payload_capacity);
        let seq: u64 = read_u64(self.segment.as_slice(), at);
        let bytes: &[u8] = &self.segment.as_slice()[at..end];
        let copy = SlotCopy { seq_before: seq, bytes, seq_after: seq };
        proof {
            let whole = self.segment@;
            let payload_capacity = self.geometry.spec.payload_capacity as int;
            lemma_section_words(whole, at as int, end as int, 8);
            lemma_section_words(whole, at as int, end as int, 16);
            lemma_section_words(whole, at as int, end as int, 24);
            assert(slot_view(bytes@, 0, payload_capacity).payload =~= slot_view(
                whole,
                at as int,
                payload_capacity,
            ).payload);
        }
        copy
    }

    /// The frame with this id's kind, lane and counter, when its slot still
    /// carries that counter.
    pub fn read(&self, id: NetId64) -> (frame: Option<Frame>)
        requires
            self.wf(),
        ensures
            frame_view(frame) == self@.lookup(id),
    {
        if id.kind() != self.geometry.kind {
            return None;
        }
        let lane: usize = match self.geometry.lane_index_for_frame(id.node()) {
            Some(lane) => lane,
            None => {
                return None;
            },
        };
        let counter: u64 = id.counter();
        let mut attempt: u8 = 0;
        while attempt < READ_ATTEMPTS
            invariant
                self.wf(),
                attempt <= READ_ATTEMPTS,
                lane < self@.geometry.lane_count,
                lane == self@.geometry.spec.lane_of(node_of(id.0)),
                kind_of(id.0) == self@.geometry.kind,
                counter == counter_of(id.0),
                attempt > 0 ==> self@.slot(lane as int, counter).frame() is None,
            decreases READ_ATTEMPTS - attempt,
        {
            let copy = self.copy_slot(lane, counter);
            match after_exact_copy(&copy, self.geometry.spec.payload_capacity, counter, attempt) {
                ReadStep::Done(found) => {
                    return found;
                },
                ReadStep::Again => {},
            }
            attempt = attempt + 1;
        }
        None
    }

    pub(crate) fn read_lane_index_at(&self, lane: usize, counter: u64) -> (frame: Option<Frame>)
        requires
            self.wf(),
            lane < self@.geometry.lane_count,
        ensures
            frame_view(frame) == self@.slot(lane as int, counter).frame(),
    {
        let mut attempt: u8 = 0;
        while attempt < READ_ATTEMPTS
            invariant
                self.wf(),
                attempt <= READ_ATTEMPTS,
                lane < self@.geometry.lane_count,
                attempt > 0 ==> self@.slot(lane as int, counter).frame() is None,
            decreases READ_ATTEMPTS - attempt,
        {
            let copy = self.copy_slot(lane, counter);
            match after_copy(&copy, self.geometry.spec.payload_capacity, attempt) {
                ReadStep::Done(found) => {
                    return found;
                },
                ReadStep::Again => {},
            }
            attempt = attempt + 1;
        }
        None
    }

    /// The most recent frame of lane zero.
    pub fn read_head(&self) -> (frame: Option<Frame>)
        requires
            self.wf(),
        ensures
            frame_view(frame) == self@.latest(0),
    {
        self.read_lane_index_head(0)
    }

    /// The most recent frame of a node's lane.
    pub fn read_lane_head(&self, node_id: NodeId) -> (frame: Option<Frame>)
        requires
            self.wf(),
            self@.geometry.serves(node_id.0),
        ensures
            frame_view(frame) == self@.latest(self@.geometry.spec.lane_of(node_id.0)),
    {
        let lane: usize = self.geometry.lane_index(node_id.0);
        self.read_lane_index_head(lane)
    }

    pub(crate) fn read_lane_index_head(&self, lane: usize) -> (frame: Option<Frame>)
        requires
            self.wf(),
            lane < self@.geometry.lane_count,
        ensures
            frame_view(frame) == self@.latest(lane as int),
    {
        let head: u64 = self.load_head(lane);
        if head == 0 {
            return None;
        }
        match self.read_lane_index_at(lane, head - 1) {
            Some(frame) => if frame.id.counter() == (head - 1) % 0x100_0000_0000 {
                Some(frame)
            } else {
                None
            },
            None => None,
        }
    }

    /// What stands committed in lane zero's slot for a counter.
    pub fn read_at(&self, counter: u64) -> (frame: Option<Frame>)
        requires
            self.wf(),
        ensures
            frame_view(frame) == self@.slot(0, counter).frame(),
    {
        self.read_lane_index_at(0, counter)
    }

    /// What stands committed in the slot of a node's lane for a counter.
    pub fn read_lane_at(&self, node_id: NodeId, counter: u64) -> (frame: Option<Frame>)
        requires
            self.wf(),
            self@.geometry.serves(node_id.0),
        ensures
            frame_view(frame) == self@.slot(
                self@.geometry.spec.lane_of(node_id.0),
                counter,
            ).frame(),
    {
        let lane: usize = self.geometry.lane_index(node_id.0);
        self.read_lane_index_at(lane, counter)
    }

    pub(crate) fn read_lane_index_state_at(&self, lane: usize, counter: u64) -> (read: RingRead)
        requires
            self.wf(),
            lane < self@.geometry.lane_count,
            counter < LAST_COUNTER,
        ensures
            read@ == self@.state(lane as int, counter),
    {
        let mut attempt: u8 = 0;
        while attempt < READ_ATTEMPTS
            invariant
                self.wf(),
                attempt <= READ_ATTEMPTS,
                lane < self@.geometry.lane_count,
                counter < LAST_COUNTER,
                attempt > 0 ==> self@.slot(lane as int, counter).frame() is None,
            decreases READ_ATTEMPTS - attempt,
        {
            let copy = self.copy_slot(lane, counter);
            match after_load(self.geometry.spec.topology, counter, copy.seq_before, attempt) {
                WalkStep::Done(read) => {
                    return read;
                },
                _ => {},
            }
            match after_walk_copy(&copy, self.geometry.spec.payload_capacity, counter) {
                WalkStep::Done(read) => {
                    return read;
                },
                _ => {},
            }
            attempt = attempt + 1;
        }
        let copy = self.copy_slot(lane, counter);
        match after_load(self.geometry.spec.topology, counter, copy.seq_before, READ_ATTEMPTS) {
            WalkStep::Done(read) => read,
            _ => RingRead::Unavailable,
        }
    }

    /// What a walking reader finds at a counter of lane zero.
    pub fn read_state_at(&self, counter: u64) -> (read: RingRead)
        requires
            self.wf(),
            counter < LAST_COUNTER,
        ensures
            read@ == self@.state(0, counter),
    {
        self.read_lane_index_state_at(0, counter)
    }

    /// What a walking reader finds at a counter of a node's lane.
    pub fn read_lane_state_at(&self, node_id: NodeId, counter: u64) -> (read: RingRead)
        requires
            self.wf(),
            self@.geometry.serves(node_id.0),
            counter < LAST_COUNTER,
        ensures
            read@ == self@.state(self@.geometry.spec.lane_of(node_id.0), counter),
    {
        let lane: usize = self.geometry.lane_index(node_id.0);
        self.read_lane_index_state_at(lane, counter)
    }

    /// Clears every slot and returns every lane head and the version counter to
    /// zero. The notification word keeps its value.
    pub fn reset(&mut self)
        requires
            old(self).wf(),
        ensures
            final(self).wf(),
            final(self).is_creator() == old(self).is_creator(),
            final(self)@ == (ShmView {
                notification: old(self)@.notification,
                ..ShmView::blank(old(self)@.geometry)
            }),
    {
        proof {
            lemma_sizes(self.geometry);
        }
        let ghost before = self.segment@;
        let slots_size: usize = self.geometry.size - self.geometry.slots_offset;
        let blank: Vec<u8> = zeroes(slots_size);
        write_over(&mut self.segment, self.geometry.slots_offset, blank.as_slice());
        let mut lane: usize = 0;
        while lane < self.geometry.lane_count
            invariant
                lane <= self.geometry.lane_count,
                self.geometry == old(self).geometry,
                self.created == old(self).created,
                self.geometry.wf(),
                self.segment@.len() == self.geometry.size,
                before.len() == self.geometry.size,
                before == old(self).segment@,
                agree(self.segment@, before, 0, HEADER_SIZE as int),
                forall|i: int|
                    self.geometry.slots_offset <= i < self.geometry.size ==> self.segment@[i] == 0,
                forall|l: int, i: int|
                    #![trigger self.geometry.lane_start(l), self.segment@[i]]
                    0 <= l < lane && self.geometry.lane_start(l) <= i
                        < self.geometry.lane_start(l) + 8 ==> self.segment@[i] == 0,
            decreases self.geometry.lane_count - lane,
        {
            let ghost stage = self.segment@;
            let offset: usize = self.geometry.lane_offset(lane);
            store_u64(&mut self.segment, offset, 0);
            proof {
                lemma_overwrite(stage, offset as int, le64(0));
                lemma_zero_bytes();
                let here = self.segment@.subrange(offset as int, offset + 8);
                assert forall|i: int| offset <= i < offset + 8 implies self.segment@[i] == 0 by {
                    assert(here[i - offset] == le64(0)[i - offset]);
                }
            }
            lane = lane + 1;
        }
        let ghost stage = self.segment@;
        store_u64(&mut self.segment, 0, 0);
        proof {
            lemma_overwrite(stage, 0, le64(0));
            lemma_read_u64(self.segment@, 0, 0);
            assert(agree(self.segment@, before, 8, HEADER_SIZE as int));
            lemma_same_header(self.geometry, self.segment@, before);
            lemma_emptied(self.geometry, self.segment@);
            assert(self@ =~= ShmView {
                notification: old(self)@.notification,
                ..ShmView::blank(old(self)@.geometry)
            });
        }
    }
}

proof fn lemma_zero_bytes()
    ensures
        forall|i: int| 0 <= i < 8 ==> #[trigger] le64(0)[i] == 0,
{
    reveal(crate::codec::le16);
    reveal(le32);
    reveal(le64);
}

/// Zeroed lane heads and slots hold nothing.
proof fn lemma_emptied(geometry: ShmGeometry, bytes: Seq<u8>)
    requires
        geometry.wf(),
        bytes.len() == geometry.size,
        forall|i: int| geometry.slots_offset <= i < geometry.size ==> bytes[i] == 0,
        forall|l: int, i: int|
            #![trigger geometry.lane_start(l), bytes[i]]
            0 <= l < geometry.lane_count && geometry.lane_start(l) <= i < geometry.lane_start(l) + 8
                ==> bytes[i] == 0,
    ensures
        segment_view(geometry, bytes).lanes == ShmView::blank(geometry).lanes,
{
    lemma_sizes(geometry);
    let view = segment_view(geometry, bytes);
    let blank = ShmView::blank(geometry);
    assert forall|lane: int| 0 <= lane < geometry.lane_count implies #[trigger] view.lanes[lane]
        == blank.lanes[lane] by {
        lemma_zero_words(bytes, geometry.lane_start(lane));
        assert forall|index: int| 0 <= index < geometry.spec.capacity implies #[trigger] view.lanes[lane].slots[index]
            == blank.lanes[lane].slots[index] by {
            lemma_slot_fits(geometry, lane, index);
            let at = geometry.slot_start(lane, index);
            lemma_zero_words(bytes, at);
            lemma_zero_words(bytes, at + 8);
            lemma_zero_words(bytes, at + 16);
            lemma_zero_words(bytes, at + 24);
            assert(view.lanes[lane].slots[index].payload =~= SlotView::blank(
                geometry.spec.payload_capacity as nat,
            ).payload);
        }
        assert(view.lanes[lane].slots =~= blank.lanes[lane].slots);
    }
    assert(view.lanes =~= blank.lanes);
}

/// The index of the first payload that is too large for a slot.
pub open spec fn first_too_large(payloads: Seq<Seq<u8>>, max: int) -> Option<int>
    decreases payloads.len(),
{
    if payloads.len() == 0 {
        None
    } else {
        match first_too_large(payloads.drop_last(), max) {
            Some(index) => Some(index),
            None => if payloads.last().len() > max {
                Some(payloads.len() - 1)
            } else {
                None
            },
        }
    }
}

proof fn lemma_none_too_large(payloads: Seq<Seq<u8>>, max: int)
    requires
        forall|i: int| 0 <= i < payloads.len() ==> (#[trigger] payloads[i]).len() <= max,
    ensures
        first_too_large(payloads, max) is None,
    decreases payloads.len(),
{
    if payloads.len() > 0 {
        lemma_none_too_large(payloads.drop_last(), max);
    }
}

proof fn lemma_first_too_large(payloads: Seq<Seq<u8>>, max: int, index: int)
    requires
        0 <= index < payloads.len(),
        payloads[index].len() > max,
        forall|i: int| 0 <= i < index ==> (#[trigger] payloads[i]).len() <= max,
    ensures
        first_too_large(payloads, max) == Some(index),
    decreases payloads.len(),
{
    let shorter = payloads.drop_last();
    if index == payloads.len() - 1 {
        lemma_none_too_large(shorter, max);
    } else {
        assert(shorter[index] == payloads[index]);
        lemma_first_too_large(shorter, max, index);
    }
}

/// Why a batch is refused: it has more frames than the ring, or a payload that
/// is too large, of which the first is named.
pub open spec fn batch_error(spec: RingSpec, payloads: Seq<Seq<u8>>) -> Option<ShmError> {
    if payloads.len() > spec.capacity {
        Some(ShmError::BatchTooLarge { len: payloads.len() as usize, max: spec.capacity })
    } else {
        match first_too_large(payloads, spec.payload_capacity as int) {
            Some(index) => Some(
                ShmError::PayloadTooLarge {
                    len: payloads[index].len() as usize,
                    max: spec.payload_capacity,
                },
            ),
            None => None,
        }
    }
}

/// Where no payload is too large, all fit.
proof fn lemma_all_fit(payloads: Seq<Seq<u8>>, max: int)
    requires
        first_too_large(payloads, max) is None,
    ensures
        forall|i: int| 0 <= i < payloads.len() ==> (#[trigger] payloads[i]).len() <= max,
    decreases payloads.len(),
{
    if payloads.len() > 0 {
        let shorter = payloads.drop_last();
        lemma_all_fit(shorter, max);
        assert forall|i: int| 0 <= i < payloads.len() implies (#[trigger] payloads[i]).len()
            <= max by {
            if i < shorter.len() {
                assert(shorter[i].len() <= max);
            }
        }
    }
}

/// Checks a batch against a ring's geometry.
pub fn check_batch(spec: RingSpec, payloads: &Vec<Bytes>) -> (checked: Result<(), ShmError>)
    ensures
        checked == match batch_error(spec, all_octets(payloads@)) {
            Some(error) => Err::<(), ShmError>(error),
            None => Ok(()),
        },
{
    let ghost contents = all_octets(payloads@);
    if payloads.len() > spec.capacity {
        return Err(ShmError::BatchTooLarge { len: payloads.len(), max: spec.capacity });
    }
    let mut checked: usize = 0;
    while checked < payloads.len()
        invariant
            checked <= payloads@.len(),
            contents == all_octets(payloads@),
            forall|i: int|
                0 <= i < checked ==> (#[trigger] contents[i]).len() <= spec.payload_capacity,
            payloads@.len() <= spec.capacity,
        decreases payloads@.len() - checked,
    {
        let len: usize = octets::as_slice(&payloads[checked]).len();
        assert(contents[checked as int].len() == len);
        if len > spec.payload_capacity {
            proof {
                lemma_first_too_large(contents, spec.payload_capacity as int, checked as int);
            }
            return Err(ShmError::PayloadTooLarge { len, max: spec.payload_capacity });
        }
        checked = checked + 1;
    }
    proof {
        lemma_none_too_large(contents, spec.payload_capacity as int);
    }
    Ok(())
}

impl RingFrameSource for ShmRing {
    open spec fn source_kind(&self) -> u8 {
        self@.geometry.kind
    }

    open spec fn source_head(&self) -> u64 {
        self@.lanes[0].head
    }

    open spec fn source_capacity(&self) -> usize {
        self@.geometry.spec.capacity
    }

    open spec fn source_frame(&self, counter: u64) -> Option<FrameView> {
        self@.slot(0, counter).frame()
    }

    open spec fn source_state(&self, counter: u64) -> ReadView {
        self@.state(0, counter)
    }

    open spec fn source_ready(&self) -> bool {
        self.wf() && self@.lanes[0].head <= LAST_COUNTER
    }

    fn kind(&self) -> u8 {
        ShmRing::kind(self)
    }

    fn head(&self) -> u64 {
        ShmRing::head(self)
    }

    fn capacity(&self) -> usize {
        ShmRing::capacity(self)
    }

    fn read_at(&self, counter: u64) -> Option<Frame> {
        ShmRing::read_at(self, counter)
    }

    fn read_state_at(&self, counter: u64) -> RingRead {
        ShmRing::read_state_at(self, counter)
    }
}

/// What opening a ring gives.
pub open spec fn opened(
    kind: u8,
    spec: RingSpec,
    fleet_capacity: u16,
    existing: Option<Vec<u8>>,
    ring: Result<ShmRing, ShmError>,
) -> bool {
    let size = layout::segment_size_of(spec, spec.lanes_for(fleet_capacity));
    if fleet_capacity == 0 {
        ring == Err::<ShmRing, ShmError>(ShmError::FleetEmpty)
    } else if layout_error(spec, fleet_capacity) is Some {
        ring == Err::<ShmRing, ShmError>(layout_error(spec, fleet_capacity)->0)
    } else {
        match (existing, ring) {
            (None, Ok(ring)) => {
                &&& ring.wf()
                &&& ring.is_creator()
                &&& is_geometry(ring@.geometry, kind, spec, fleet_capacity)
                &&& ring@ == ShmView::blank(ring@.geometry)
            },
            (None, Err(_)) => false,
            (Some(bytes), Ok(ring)) => {
                &&& ring.wf()
                &&& !ring.is_creator()
                &&& is_geometry(ring@.geometry, kind, spec, fleet_capacity)
                &&& bytes@.len() >= size
                &&& ring.bytes() == bytes@.subrange(0, size)
                &&& ring@.geometry.header_error(bytes@) is None
            },
            (Some(bytes), Err(error)) => if bytes@.len() < size {
                error matches ShmError::SegmentTooSmall { actual, requested } && actual
                    == bytes@.len() && requested == size
            } else {
                exists|geometry: ShmGeometry|
                    is_geometry(geometry, kind, spec, fleet_capacity)
                        && #[trigger] geometry.header_error(bytes@) == Some(error)
            },
        }
    }
}

/// The one well-formed geometry of a ring in a fleet.
pub open spec fn is_geometry(
    geometry: ShmGeometry,
    kind: u8,
    spec: RingSpec,
    fleet_capacity: u16,
) -> bool {
    &&& geometry.wf()
    &&& geometry.kind == kind
    &&& geometry.spec == spec
    &&& geometry.lane_count == spec.lanes_for(fleet_capacity)
}

/// What lies behind the header is unchanged, so the lanes are.
proof fn lemma_beyond_header(geometry: ShmGeometry, after: Seq<u8>, before: Seq<u8>)
    requires
        geometry.wf(),
        after.len() == geometry.size,
        before.len() == geometry.size,
        agree(after, before, 64, geometry.size as int),
    ensures
        segment_view(geometry, after).lanes == segment_view(geometry, before).lanes,
{
    lemma_sizes(geometry);
    let one = segment_view(geometry, after);
    let other = segment_view(geometry, before);
    assert forall|lane: int| 0 <= lane < geometry.lane_count implies #[trigger] one.lanes[lane]
        == other.lanes[lane] by {
        lemma_same_u64(after, before, geometry.lane_start(lane));
        assert forall|index: int| 0 <= index < geometry.spec.capacity implies #[trigger] one.lanes[lane].slots[index]
            == other.lanes[lane].slots[index] by {
            lemma_slot_fits(geometry, lane, index);
            lemma_same_slot(
                after,
                before,
                geometry.slot_start(lane, index),
                geometry.spec.payload_capacity as int,
            );
        }
        assert(one.lanes[lane].slots =~= other.lanes[lane].slots);
    }
    assert(one.lanes =~= other.lanes);
}

/// A zeroed segment behind a fresh header holds nothing.
proof fn lemma_fresh(geometry: ShmGeometry, bytes: Seq<u8>)
    requires
        geometry.wf(),
        bytes.len() == geometry.size,
        stands_at(bytes, 0, geometry.header()),
        forall|i: int| HEADER_SIZE <= i < bytes.len() ==> bytes[i] == 0,
    ensures
        segment_view(geometry, bytes) == ShmView::blank(geometry),
{
    lemma_sizes(geometry);
    let header = geometry.header();
    assert(header.len() == 64);
    assert(header.subrange(0, 8) =~= le64(0));
    assert(header.subrange(36, 40) =~= le32(0));
    let front = bytes.subrange(0, 64);
    assert(bytes.subrange(0, 8) =~= front.subrange(0, 8));
    assert(bytes.subrange(36, 40) =~= front.subrange(36, 40));
    lemma_read_u64(bytes, 0, 0);
    lemma_read_u32(bytes, 36, 0);
    lemma_emptied(geometry, bytes);
}

} // verus!
