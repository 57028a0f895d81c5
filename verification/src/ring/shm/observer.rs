//! Read-only observation of a ring from outside its fleet.
//!
//! An observer takes the geometry from the segment itself. It holds no node,
//! owns no lane and writes nothing.
use vstd::prelude::*;

use crate::codec::{read_u16, read_u32, read_u64, u16_at, u32_at, u64_at};
use crate::ring::cursor::{ReadView, RingFrameSource, RingRead};
use crate::ring::shm::layout::{
    layout_error, ShmError, ShmGeometry, HEADER_SIZE, MAGIC, VERSION,
};
use crate::ring::shm::slot::LAST_COUNTER;
use crate::ring::shm::{is_geometry, lemma_sizes, opened, ShmRing, ShmView};
use crate::ring::{frame_view, Frame, FrameView, RingSpec, RingTopology};
use crate::typed::{declared, ring_spec, OrbitTyped};

verus! {

/// The topology that a byte in a segment header stands for.
pub open spec fn topology_of(code: u8) -> Option<RingTopology> {
    if code == 0 {
        Some(RingTopology::Shared)
    } else if code == 1 {
        Some(RingTopology::PerNode)
    } else if code == 2 {
        Some(RingTopology::SharedOrdered)
    } else {
        None
    }
}

/// The geometry that a segment header persists.
pub open spec fn persisted(bytes: Seq<u8>) -> RingSpec {
    RingSpec {
        capacity: u64_at(bytes, 8) as usize,
        payload_capacity: u32_at(bytes, 24) as usize,
        topology: topology_of(bytes[33])->0,
    }
}

/// The lanes that a segment header persists.
pub open spec fn persisted_lanes(bytes: Seq<u8>) -> u16 {
    u16_at(bytes, 34)
}

/// Why the fixed part of a segment's header is not one of a ring of this kind.
pub open spec fn attach_fault(kind: u8, bytes: Seq<u8>) -> Option<ShmError> {
    if bytes.len() < HEADER_SIZE {
        Some(
            ShmError::SegmentTooSmall { actual: bytes.len() as usize, requested: HEADER_SIZE },
        )
    } else if u32_at(bytes, 16) != MAGIC {
        Some(ShmError::WrongMagic { found: u32_at(bytes, 16) })
    } else if u32_at(bytes, 20) != VERSION {
        Some(ShmError::WrongVersion { found: u32_at(bytes, 20) })
    } else if bytes[32] != kind {
        Some(ShmError::WrongKind { found: bytes[32], requested: kind })
    } else if topology_of(bytes[33]) is None {
        Some(ShmError::WrongTopology { found: bytes[33], requested: 0 })
    } else if u64_at(bytes, 8) > usize::MAX {
        Some(ShmError::SegmentSizeOverflow)
    } else {
        None
    }
}

/// What a segment persists of its ring.
#[derive(Clone, Copy, Debug, PartialEq, Eq, Structural)]
pub struct RingMetadata {
    pub kind: u8,
    pub spec: RingSpec,
    pub lane_count: usize,
}

/// A ring that is observed.
pub struct ObservedRing {
    ring: ShmRing,
}

impl View for ObservedRing {
    type V = ShmView;

    closed spec fn view(&self) -> ShmView {
        self.ring@
    }
}

impl ObservedRing {
    /// The segment fits its own header.
    pub closed spec fn wf(&self) -> bool {
        self.ring.wf()
    }

    /// Attaches to the segment of a ring, with the geometry that the segment
    /// persists.
    pub fn attach(kind: u8, segment: Vec<u8>) -> (observed: Result<ObservedRing, ShmError>)
        ensures
            match attach_fault(kind, segment@) {
                Some(error) => observed is Err && observed->Err_0 == error,
                None => exists|ring: Result<ShmRing, ShmError>| #[trigger]
                    opened(
                        kind,
                        persisted(segment@),
                        persisted_lanes(segment@),
                        Some(segment),
                        ring,
                    ) && match ring {
                        Ok(ring) => observed is Ok && observed->Ok_0@ == ring@
                            && observed->Ok_0.wf(),
                        Err(error) => observed is Err && observed->Err_0 == error,
                    },
            },
    {
        if segment.len() < HEADER_SIZE {
            return Err(
                ShmError::SegmentTooSmall { actual: segment.len(), requested: HEADER_SIZE },
            );
        }
        let header: &[u8] = segment.as_slice();
        let magic: u32 = read_u32(header, 16);
        if magic != MAGIC {
            return Err(ShmError::WrongMagic { found: magic });
        }
        let version: u32 = read_u32(header, 20);
        if version != VERSION {
            return Err(ShmError::WrongVersion { found: version });
        }
        if header[32] != kind {
            return Err(ShmError::WrongKind { found: header[32], requested: kind });
        }
        let topology: RingTopology = match header[33] {
            0 => RingTopology::Shared,
            1 => RingTopology::PerNode,
            2 => RingTopology::SharedOrdered,
            other => {
                return Err(ShmError::WrongTopology { found: other, requested: 0 });
            },
        };
        let capacity: u64 = read_u64(header, 8);
        if capacity > usize::MAX as u64 {
            return Err(ShmError::SegmentSizeOverflow);
        }
        let spec = RingSpec {
            capacity: capacity as usize,
            payload_capacity: read_u32(header, 24) as usize,
            topology,
        };
        let lanes: u16 = read_u16(header, 34);
        let ghost whole = segment;
        let ring = ShmRing::open_or_create_for_fleet(kind, spec, lanes, Some(segment));
        proof {
            assert(spec == persisted(whole@));
            assert(opened(kind, persisted(whole@), persisted_lanes(whole@), Some(whole), ring));
        }
        match ring {
            Ok(ring) => Ok(ObservedRing { ring }),
            Err(error) => Err(error),
        }
    }

    /// Holds the persisted geometry against the one that `T` declares.
    pub fn expect<T: OrbitTyped>(&self) -> (checked: Result<(), ShmError>)
        requires
            self.wf(),
        ensures
            checked == if self@.geometry.spec == declared::<T>() {
                Ok(())
            } else {
                Err::<(), ShmError>(
                    ShmError::SpecReused {
                        kind: self@.geometry.kind,
                        requested: declared::<T>(),
                        existing: self@.geometry.spec,
                    },
                )
            },
    {
        let existing: RingSpec = self.ring.spec();
        let requested: RingSpec = ring_spec::<T>();
        if existing == requested {
            Ok(())
        } else {
            Err(ShmError::SpecReused { kind: self.ring.kind(), requested, existing })
        }
    }

    /// What the segment persists of its ring.
    pub fn metadata(&self) -> (metadata: RingMetadata)
        ensures
            metadata == (RingMetadata {
                kind: self@.geometry.kind,
                spec: self@.geometry.spec,
                lane_count: self@.geometry.lane_count,
            }),
    {
        RingMetadata {
            kind: self.ring.kind(),
            spec: self.ring.spec(),
            lane_count: self.ring.lane_count(),
        }
    }

    /// One lane of the ring.
    pub fn lane(&self, index: u16) -> (lane: Option<ObservedLane<'_>>)
        requires
            self.wf(),
        ensures
            match lane {
                Some(lane) => {
                    &&& index < self@.geometry.lane_count
                    &&& lane.wf()
                    &&& lane.ring_view() == self@
                    &&& lane.number() == index
                },
                None => index >= self@.geometry.lane_count,
            },
    {
        if index as usize >= self.ring.lane_count() {
            return None;
        }
        Some(ObservedLane { ring: &self.ring, index })
    }
}

/// One lane of a ring that is observed.
pub struct ObservedLane<'a> {
    ring: &'a ShmRing,
    index: u16,
}

impl<'a> ObservedLane<'a> {
    /// The observed ring, as a specification.
    pub closed spec fn ring_view(&self) -> ShmView {
        self.ring@
    }

    /// The lane's number, as a specification.
    pub closed spec fn number(&self) -> u16 {
        self.index
    }

    /// The lane is one of the ring's.
    pub closed spec fn wf(&self) -> bool {
        self.ring.wf() && self.index < self.ring@.geometry.lane_count
    }

    /// The counters that the lane retains: from the first up to, and without,
    /// the second.
    pub fn retained_range(&self) -> (range: (u64, u64))
        requires
            self.wf(),
        ensures
            ({
                let head = self.ring_view().lanes[self.number() as int].head;
                let capacity = self.ring_view().geometry.spec.capacity;
                &&& range.1 == head
                &&& range.0 == if head > capacity {
                    head - capacity
                } else {
                    0
                }
            }),
    {
        let head: u64 = self.ring.load_head(self.index as usize);
        let capacity: u64 = self.ring.capacity() as u64;
        if head > capacity {
            (head - capacity, head)
        } else {
            (0, head)
        }
    }

    /// The most recent frame of the lane.
    pub fn read_head(&self) -> (frame: Option<Frame>)
        requires
            self.wf(),
        ensures
            frame_view(frame) == self.ring_view().latest(self.number() as int),
    {
        self.ring.read_lane_index_head(self.index as usize)
    }
}

impl<'a> RingFrameSource for ObservedLane<'a> {
    open spec fn source_kind(&self) -> u8 {
        self.ring_view().geometry.kind
    }

    open spec fn source_head(&self) -> u64 {
        self.ring_view().lanes[self.number() as int].head
    }

    open spec fn source_capacity(&self) -> usize {
        self.ring_view().geometry.spec.capacity
    }

    open spec fn source_frame(&self, counter: u64) -> Option<FrameView> {
        self.ring_view().slot(self.number() as int, counter).frame()
    }

    open spec fn source_state(&self, counter: u64) -> ReadView {
        self.ring_view().state(self.number() as int, counter)
    }

    open spec fn source_ready(&self) -> bool {
        self.wf() && self.ring_view().lanes[self.number() as int].head <= LAST_COUNTER
    }

    fn kind(&self) -> u8 {
        self.ring.kind()
    }

    fn head(&self) -> u64 {
        self.ring.load_head(self.index as usize)
    }

    fn capacity(&self) -> usize {
        self.ring.capacity()
    }

    fn read_at(&self, counter: u64) -> Option<Frame> {
        self.ring.read_lane_index_at(self.index as usize, counter)
    }

    fn read_state_at(&self, counter: u64) -> RingRead {
        self.ring.read_lane_index_state_at(self.index as usize, counter)
    }
}

/// A geometry whose parts fit together has a layout.
proof fn lemma_has_layout(geometry: ShmGeometry)
    requires
        geometry.wf(),
    ensures
        layout_error(geometry.spec, geometry.lane_count as u16) is None,
{
    let stride = geometry.slot_stride as int;
    let lanes = geometry.lane_count as int;
    let per_lane = geometry.spec.capacity * stride;
    assert(0 <= per_lane <= lanes * per_lane) by (nonlinear_arith)
        requires
            per_lane == geometry.spec.capacity * stride,
            0 <= stride,
            0 < lanes,
            0 <= geometry.spec.capacity,
    ;
}

/// An observer of a ring's segment is never refused, and sees the ring.
pub proof fn law_observer_sees_the_ring(
    writer: &ShmRing,
    segment: Vec<u8>,
    ring: Result<ShmRing, ShmError>,
)
    requires
        writer.wf(),
        segment@ == writer.bytes(),
        opened(
            writer@.geometry.kind,
            persisted(segment@),
            persisted_lanes(segment@),
            Some(segment),
            ring,
        ),
    ensures
        attach_fault(writer@.geometry.kind, segment@) is None,
        ring is Ok,
        ring->Ok_0@ == writer@,
{
    let geometry = writer@.geometry;
    let bytes = segment@;
    lemma_has_layout(geometry);
    assert(persisted(bytes) == geometry.spec);
    assert(persisted_lanes(bytes) == geometry.lane_count);
    assert(bytes.len() >= HEADER_SIZE) by {
        lemma_sizes(geometry);
    }
    match ring {
        Ok(ring) => {
            assert(ring@.geometry == geometry);
            assert(bytes.subrange(0, geometry.size as int) =~= bytes);
        },
        Err(error) => {
            let other = choose|other: ShmGeometry|
                is_geometry(other, geometry.kind, geometry.spec, geometry.lane_count as u16)
                    && #[trigger] other.header_error(bytes) == Some(error);
            assert(other == geometry);
        },
    }
}

/// The byte of a topology names it, and no other byte names one.
pub proof fn law_topologies_are_named_by_their_bytes(topology: RingTopology, code: u8)
    ensures
        topology_of(topology.code()) == Some(topology),
        topology_of(code) matches Some(found) ==> found.code() == code,
        code > 2 ==> topology_of(code) is None,
{
}

/// What an observer accepts: a segment with a header that says it is a ring of this kind,
/// of this version and of a topology that is known.
pub proof fn law_observer_accepts_rings_of_the_kind(kind: u8, bytes: Seq<u8>)
    ensures
        attach_fault(kind, bytes) is None ==> {
            &&& bytes.len() >= 64
            &&& u32_at(bytes, 16) == 0x4F52_4254
            &&& u32_at(bytes, 20) == 3
            &&& bytes[32] == kind
            &&& bytes[33] <= 2
        },
        bytes.len() >= 64 && u32_at(bytes, 16) == 0x4F52_4254 && u32_at(bytes, 20) == 3 && bytes[32]
            == kind && bytes[33] <= 2 && u64_at(bytes, 8) <= usize::MAX ==> attach_fault(
            kind,
            bytes,
        ) is None,
{
}

} // verus!
