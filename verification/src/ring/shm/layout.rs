//! Layout of a ring's shared-memory segment.
//!
//! A segment holds one 64-byte header, one 64-byte header per lane, and then
//! the slots of every lane. The header persists the ring's geometry, and every
//! process that attaches holds it against its own.
use vstd::arithmetic::power2::is_pow2;
use vstd::prelude::*;
use vstd::string::*;

use crate::codec::{
    le16, le32, le64, lemma_read_u16, lemma_read_u32, lemma_read_u64, push_u16, push_u32, push_u64,
    read_u16, read_u32, read_u64, stands_at, u16_at, u32_at, u64_at,
};
use crate::decimal::{digits, hex_text, push_hex, push_number};
use crate::numbers::is_power_of_two;
use crate::ring::{push_spec, spec_text, RingSpec, RingTopology};

verus! {

broadcast use crate::codec::group_widths;

/// First word of every ring segment.
pub const MAGIC: u32 = 0x4F52_4254;

/// Version of the segment layout.
pub const VERSION: u32 = 3;

/// Slots begin at multiples of this many bytes from the first slot.
pub const SLOT_ALIGNMENT: usize = 64;

/// Bytes before a slot's payload.
pub const SLOT_HEADER_SIZE: usize = 32;

/// Bytes of the segment header.
pub const HEADER_SIZE: usize = 64;

/// Bytes of one lane header.
pub const LANE_HEADER_SIZE: usize = 64;

/// Why a segment was refused.
#[allow(inconsistent_fields)]
#[derive(Clone, Copy, Debug, PartialEq, Eq, Structural)]
pub enum ShmError {
    FleetEmpty,
    CapacityZero,
    CapacityNotPowerOfTwo,
    PayloadCapacityTooLarge,
    SlotSizeOverflow,
    SlotStrideOverflow,
    SlotStrideTooLarge,
    LaneHeaderSizeOverflow,
    SlotsOffsetOverflow,
    LaneSizeOverflow,
    SlotsSizeOverflow,
    SegmentSizeOverflow,
    SegmentTooSmall { actual: usize, requested: usize },
    WrongMagic { found: u32 },
    WrongVersion { found: u32 },
    WrongKind { found: u8, requested: u8 },
    WrongTopology { found: u8, requested: u8 },
    WrongLaneCount { found: u16, requested: usize },
    WrongCapacity { found: u64, requested: usize },
    WrongPayloadCapacity { found: u32, requested: usize },
    WrongSlotStride { found: u32, requested: usize },
    PayloadTooLarge { len: usize, max: usize },
    BatchTooLarge { len: usize, max: usize },
    SpecReused { kind: u8, requested: RingSpec, existing: RingSpec },
}

/// The class of a segment error: what the caller asked for is at fault, or
/// what the segment holds.
#[derive(Clone, Copy, Debug, PartialEq, Eq, Structural)]
pub enum ShmErrorKind {
    InvalidInput,
    InvalidData,
}

impl ShmError {
    /// The class of the error.
    pub open spec fn class(self) -> ShmErrorKind {
        match self {
            ShmError::SegmentTooSmall { .. }
            | ShmError::WrongMagic { .. }
            | ShmError::WrongVersion { .. }
            | ShmError::WrongKind { .. }
            | ShmError::WrongTopology { .. }
            | ShmError::WrongLaneCount { .. }
            | ShmError::WrongCapacity { .. }
            | ShmError::WrongPayloadCapacity { .. }
            | ShmError::WrongSlotStride { .. }
            | ShmError::SpecReused { .. } => ShmErrorKind::InvalidData,
            _ => ShmErrorKind::InvalidInput,
        }
    }

    /// The class of the error.
    pub fn kind(self) -> (kind: ShmErrorKind)
        ensures
            kind == self.class(),
    {
        match self {
            ShmError::SegmentTooSmall { .. }
            | ShmError::WrongMagic { .. }
            | ShmError::WrongVersion { .. }
            | ShmError::WrongKind { .. }
            | ShmError::WrongTopology { .. }
            | ShmError::WrongLaneCount { .. }
            | ShmError::WrongCapacity { .. }
            | ShmError::WrongPayloadCapacity { .. }
            | ShmError::WrongSlotStride { .. }
            | ShmError::SpecReused { .. } => ShmErrorKind::InvalidData,
            _ => ShmErrorKind::InvalidInput,
        }
    }
}

/// Bytes from one slot to the next: header and payload, rounded up to the
/// alignment.
pub open spec fn stride_of(payload_capacity: int) -> int {
    (SLOT_HEADER_SIZE + payload_capacity + (SLOT_ALIGNMENT - 1)) / (SLOT_ALIGNMENT as int)
        * SLOT_ALIGNMENT
}

/// Bytes before the first slot.
pub open spec fn slots_offset_of(lanes: int) -> int {
    HEADER_SIZE + lanes * LANE_HEADER_SIZE
}

/// Bytes of the whole segment.
pub open spec fn segment_size_of(spec: RingSpec, lanes: int) -> int {
    slots_offset_of(lanes) + lanes * (spec.capacity * stride_of(spec.payload_capacity as int))
}

/// The first reason why a geometry has no layout on this machine.
pub open spec fn layout_error(spec: RingSpec, fleet_capacity: u16) -> Option<ShmError> {
    let stride = stride_of(spec.payload_capacity as int);
    let lanes = spec.lanes_for(fleet_capacity);
    if spec.capacity == 0 {
        Some(ShmError::CapacityZero)
    } else if !is_pow2(spec.capacity as int) {
        Some(ShmError::CapacityNotPowerOfTwo)
    } else if spec.payload_capacity > u32::MAX {
        Some(ShmError::PayloadCapacityTooLarge)
    } else if SLOT_HEADER_SIZE + spec.payload_capacity > usize::MAX {
        Some(ShmError::SlotSizeOverflow)
    } else if SLOT_HEADER_SIZE + spec.payload_capacity + (SLOT_ALIGNMENT - 1) > usize::MAX {
        Some(ShmError::SlotStrideOverflow)
    } else if stride > u32::MAX {
        Some(ShmError::SlotStrideTooLarge)
    } else if fleet_capacity == 0 {
        Some(ShmError::FleetEmpty)
    } else if lanes * LANE_HEADER_SIZE > usize::MAX {
        Some(ShmError::LaneHeaderSizeOverflow)
    } else if slots_offset_of(lanes) > usize::MAX {
        Some(ShmError::SlotsOffsetOverflow)
    } else if spec.capacity * stride > usize::MAX {
        Some(ShmError::LaneSizeOverflow)
    } else if lanes * (spec.capacity * stride) > usize::MAX {
        Some(ShmError::SlotsSizeOverflow)
    } else if segment_size_of(spec, lanes) > usize::MAX {
        Some(ShmError::SegmentSizeOverflow)
    } else {
        None
    }
}

/// How many lanes a fleet of this many members needs.
pub fn lane_count_for(spec: RingSpec, fleet_capacity: u16) -> (lanes: Result<usize, ShmError>)
    ensures
        fleet_capacity == 0 ==> lanes == Err::<usize, ShmError>(ShmError::FleetEmpty),
        fleet_capacity != 0 ==> lanes is Ok && lanes->Ok_0 == spec.lanes_for(fleet_capacity),
{
    if fleet_capacity == 0 {
        return Err(ShmError::FleetEmpty);
    }
    match spec.topology {
        RingTopology::Shared | RingTopology::SharedOrdered => Ok(1),
        RingTopology::PerNode => Ok(fleet_capacity as usize),
    }
}

/// The slot stride, the offset of the first slot and the size of a segment.
pub fn checked_layout(spec: RingSpec, fleet_capacity: u16) -> (layout: Result<
    (usize, usize, usize),
    ShmError,
>)
    ensures
        match layout {
            Ok((stride, offset, size)) => {
                &&& layout_error(spec, fleet_capacity) is None
                &&& stride == stride_of(spec.payload_capacity as int)
                &&& offset == slots_offset_of(spec.lanes_for(fleet_capacity))
                &&& size == segment_size_of(spec, spec.lanes_for(fleet_capacity))
            },
            Err(error) => layout_error(spec, fleet_capacity) == Some(error),
        },
{
    if spec.capacity == 0 {
        return Err(ShmError::CapacityZero);
    }
    if !is_power_of_two(spec.capacity) {
        return Err(ShmError::CapacityNotPowerOfTwo);
    }
    if spec.payload_capacity > 0xffff_ffff {
        return Err(ShmError::PayloadCapacityTooLarge);
    }
    let unaligned: usize = match SLOT_HEADER_SIZE.checked_add(spec.payload_capacity) {
        Some(value) => value,
        None => {
            return Err(ShmError::SlotSizeOverflow);
        },
    };
    let slot_stride: usize = match unaligned.checked_add(SLOT_ALIGNMENT - 1) {
        Some(value) => value / SLOT_ALIGNMENT * SLOT_ALIGNMENT,
        None => {
            return Err(ShmError::SlotStrideOverflow);
        },
    };
    if slot_stride > 0xffff_ffff {
        return Err(ShmError::SlotStrideTooLarge);
    }
    let lane_count: usize = match lane_count_for(spec, fleet_capacity) {
        Ok(lanes) => lanes,
        Err(error) => {
            return Err(error);
        },
    };
    let lane_headers_size: usize = match lane_count.checked_mul(LANE_HEADER_SIZE) {
        Some(value) => value,
        None => {
            return Err(ShmError::LaneHeaderSizeOverflow);
        },
    };
    let slots_offset: usize = match HEADER_SIZE.checked_add(lane_headers_size) {
        Some(value) => value,
        None => {
            return Err(ShmError::SlotsOffsetOverflow);
        },
    };
    let slots_per_lane: usize = match spec.capacity.checked_mul(slot_stride) {
        Some(value) => value,
        None => {
            return Err(ShmError::LaneSizeOverflow);
        },
    };
    let slots_size: usize = match lane_count.checked_mul(slots_per_lane) {
        Some(value) => value,
        None => {
            return Err(ShmError::SlotsSizeOverflow);
        },
    };
    match slots_offset.checked_add(slots_size) {
        Some(segment_size) => Ok((slot_stride, slots_offset, segment_size)),
        None => Err(ShmError::SegmentSizeOverflow),
    }
}

/// The segment size that a ring needs in a single-member fleet.
pub fn segment_size_for_spec(spec: RingSpec) -> (size: Result<usize, ShmError>)
    ensures
        match size {
            Ok(size) => layout_error(spec, 1) is None && size == segment_size_of(spec, 1),
            Err(error) => layout_error(spec, 1) == Some(error),
        },
{
    segment_size_for_spec_and_fleet(spec, 1)
}

/// The segment size that a ring needs in a fleet of this many members.
pub fn segment_size_for_spec_and_fleet(spec: RingSpec, fleet_capacity: u16) -> (size: Result<
    usize,
    ShmError,
>)
    ensures
        match size {
            Ok(size) => layout_error(spec, fleet_capacity) is None && size == segment_size_of(
                spec,
                spec.lanes_for(fleet_capacity),
            ),
            Err(error) => layout_error(spec, fleet_capacity) == Some(error),
        },
{
    match checked_layout(spec, fleet_capacity) {
        Ok((_, _, size)) => Ok(size),
        Err(error) => Err(error),
    }
}

/// Where things stand in the segment of one ring.
#[derive(Clone, Copy, Debug, PartialEq, Eq, Structural)]
pub struct ShmGeometry {
    pub kind: u8,
    pub spec: RingSpec,
    pub lane_count: usize,
    pub slot_stride: usize,
    pub slots_offset: usize,
    pub size: usize,
}

impl ShmGeometry {
    /// A geometry whose parts fit together.
    pub open spec fn wf(self) -> bool {
        &&& self.spec.valid()
        &&& 0 < self.lane_count <= u16::MAX
        &&& self.spec.topology != RingTopology::PerNode ==> self.lane_count == 1
        &&& self.slot_stride == stride_of(self.spec.payload_capacity as int)
        &&& self.slot_stride <= u32::MAX
        &&& self.slots_offset == slots_offset_of(self.lane_count as int)
        &&& self.size == segment_size_of(self.spec, self.lane_count as int)
    }

    /// True when the node writes to one of the segment's lanes.
    pub open spec fn serves(self, node: u16) -> bool {
        self.spec.lane_of(node) < self.lane_count
    }

    /// Where a slot of a lane begins.
    pub open spec fn slot_start(self, lane: int, index: int) -> int {
        self.slots_offset + (lane * self.spec.capacity + index) * self.slot_stride
    }

    /// Where a lane's header begins.
    pub open spec fn lane_start(self, lane: int) -> int {
        HEADER_SIZE + lane * LANE_HEADER_SIZE
    }

    /// The geometry of the segment that a ring needs, with the reason why there
    /// is none. An empty fleet is refused before anything else.
    pub fn plan(kind: u8, spec: RingSpec, fleet_capacity: u16) -> (geometry: Result<
        ShmGeometry,
        ShmError,
    >)
        ensures
            match geometry {
                Ok(geometry) => {
                    &&& fleet_capacity != 0
                    &&& layout_error(spec, fleet_capacity) is None
                    &&& geometry.wf()
                    &&& geometry.kind == kind
                    &&& geometry.spec == spec
                    &&& geometry.lane_count == spec.lanes_for(fleet_capacity)
                },
                Err(error) => if fleet_capacity == 0 {
                    error == ShmError::FleetEmpty
                } else {
                    layout_error(spec, fleet_capacity) == Some(error)
                },
            },
    {
        let lane_count: usize = match lane_count_for(spec, fleet_capacity) {
            Ok(lanes) => lanes,
            Err(error) => {
                return Err(error);
            },
        };
        match checked_layout(spec, fleet_capacity) {
            Ok((slot_stride, slots_offset, size)) => Ok(
                ShmGeometry { kind, spec, lane_count, slot_stride, slots_offset, size },
            ),
            Err(error) => Err(error),
        }
    }

    /// The lane that a node's frames go to.
    pub fn lane_index(&self, node: u16) -> (lane: usize)
        requires
            self.serves(node),
        ensures
            lane == self.spec.lane_of(node),
            lane < self.lane_count,
    {
        match self.spec.topology {
            RingTopology::Shared | RingTopology::SharedOrdered => 0,
            RingTopology::PerNode => node as usize,
        }
    }

    /// The lane that a frame's id points to, when there is one.
    pub fn lane_index_for_frame(&self, node: u16) -> (lane: Option<usize>)
        requires
            self.wf(),
        ensures
            self.serves(node) ==> lane is Some && lane->Some_0 == self.spec.lane_of(node),
            !self.serves(node) ==> lane is None,
    {
        let lane: usize = match self.spec.topology {
            RingTopology::Shared | RingTopology::SharedOrdered => 0,
            RingTopology::PerNode => node as usize,
        };
        if lane < self.lane_count {
            Some(lane)
        } else {
            None
        }
    }

    /// Where a lane's header begins.
    pub fn lane_offset(&self, lane: usize) -> (offset: usize)
        requires
            self.wf(),
            lane < self.lane_count,
        ensures
            offset == self.lane_start(lane as int),
            offset + LANE_HEADER_SIZE <= self.slots_offset <= self.size,
    {
        proof {
            lemma_sizes(*self);
        }
        HEADER_SIZE + lane * LANE_HEADER_SIZE
    }

    /// Where the slot that a counter falls into begins.
    pub fn slot_offset(&self, lane: usize, counter: u64) -> (offset: usize)
        requires
            self.wf(),
            lane < self.lane_count,
        ensures
            offset == self.slot_start(
                lane as int,
                counter as int % self.spec.capacity as int,
            ),
            self.slots_offset <= offset,
            offset + self.slot_stride <= self.size,
    {
        let index: u64 = counter % (self.spec.capacity as u64);
        proof {
            lemma_slot_fits(*self, lane as int, index as int);
            assert(lane * self.spec.capacity <= self.size && (lane * self.spec.capacity + index)
                * self.slot_stride <= self.size && lane * self.spec.capacity + index <= self.size)
                by (nonlinear_arith)
                requires
                    self.slots_offset + (lane * self.spec.capacity + index) * self.slot_stride
                        + self.slot_stride <= self.size,
                    0 < self.slot_stride,
                    0 <= lane,
                    0 <= index,
                    0 < self.spec.capacity,
                    0 <= self.slots_offset,
            ;
        }
        self.slots_offset + (lane * self.spec.capacity + index as usize) * self.slot_stride
    }

    /// The 64 bytes that a new segment begins with.
    pub open spec fn header(self) -> Seq<u8> {
        le64(0) + le64(self.spec.capacity as u64) + le32(MAGIC) + le32(VERSION) + le32(
            self.spec.payload_capacity as u32,
        ) + le32(self.slot_stride as u32) + seq![self.kind, self.spec.topology.code()] + le16(
            self.lane_count as u16,
        ) + le32(0) + Seq::new(24, |i: int| 0u8)
    }

    /// The 64 bytes that a new segment begins with.
    pub fn initial_header(&self) -> (bytes: Vec<u8>)
        requires
            self.wf(),
        ensures
            bytes@ == self.header(),
            bytes@.len() == HEADER_SIZE,
    {
        let mut bytes: Vec<u8> = Vec::new();
        push_u64(&mut bytes, 0);
        push_u64(&mut bytes, self.spec.capacity as u64);
        push_u32(&mut bytes, MAGIC);
        push_u32(&mut bytes, VERSION);
        push_u32(&mut bytes, self.spec.payload_capacity as u32);
        push_u32(&mut bytes, self.slot_stride as u32);
        bytes.push(self.kind);
        bytes.push(self.spec.topology.to_code());
        push_u16(&mut bytes, self.lane_count as u16);
        push_u32(&mut bytes, 0);
        let ghost front = bytes@;
        let mut count: usize = 0;
        while count < 24
            invariant
                count <= 24,
                bytes@ == front + Seq::new(count as nat, |i: int| 0u8),
            decreases 24 - count,
        {
            bytes.push(0);
            count = count + 1;
            assert(bytes@ =~= front + Seq::new(count as nat, |i: int| 0u8));
        }
        assert(bytes@ =~= self.header());
        bytes
    }

    /// The first reason why an existing segment's header does not fit, in the
    /// order in which the fields are held against the geometry.
    pub open spec fn header_error(self, bytes: Seq<u8>) -> Option<ShmError> {
        if u32_at(bytes, 16) != MAGIC {
            Some(ShmError::WrongMagic { found: u32_at(bytes, 16) })
        } else if u32_at(bytes, 20) != VERSION {
            Some(ShmError::WrongVersion { found: u32_at(bytes, 20) })
        } else if bytes[32] != self.kind {
            Some(ShmError::WrongKind { found: bytes[32], requested: self.kind })
        } else if bytes[33] != self.spec.topology.code() {
            Some(
                ShmError::WrongTopology {
                    found: bytes[33],
                    requested: self.spec.topology.code(),
                },
            )
        } else if u16_at(bytes, 34) != self.lane_count {
            Some(
                ShmError::WrongLaneCount { found: u16_at(bytes, 34), requested: self.lane_count },
            )
        } else if u64_at(bytes, 8) != self.spec.capacity {
            Some(
                ShmError::WrongCapacity { found: u64_at(bytes, 8), requested: self.spec.capacity },
            )
        } else if u32_at(bytes, 24) != self.spec.payload_capacity {
            Some(
                ShmError::WrongPayloadCapacity {
                    found: u32_at(bytes, 24),
                    requested: self.spec.payload_capacity,
                },
            )
        } else if u32_at(bytes, 28) != self.slot_stride {
            Some(
                ShmError::WrongSlotStride {
                    found: u32_at(bytes, 28),
                    requested: self.slot_stride,
                },
            )
        } else {
            None
        }
    }

    /// Holds an existing segment's header against the geometry.
    pub fn check_header(&self, bytes: &[u8]) -> (checked: Result<(), ShmError>)
        requires
            bytes@.len() >= HEADER_SIZE,
        ensures
            match checked {
                Ok(_) => self.header_error(bytes@) is None,
                Err(error) => self.header_error(bytes@) == Some(error),
            },
    {
        let magic: u32 = read_u32(bytes, 16);
        if magic != MAGIC {
            return Err(ShmError::WrongMagic { found: magic });
        }
        let version: u32 = read_u32(bytes, 20);
        if version != VERSION {
            return Err(ShmError::WrongVersion { found: version });
        }
        let kind: u8 = bytes[32];
        if kind != self.kind {
            return Err(ShmError::WrongKind { found: kind, requested: self.kind });
        }
        let topology: u8 = bytes[33];
        let requested: u8 = self.spec.topology.to_code();
        if topology != requested {
            return Err(ShmError::WrongTopology { found: topology, requested });
        }
        let lane_count: u16 = read_u16(bytes, 34);
        if lane_count as usize != self.lane_count {
            return Err(
                ShmError::WrongLaneCount { found: lane_count, requested: self.lane_count },
            );
        }
        let capacity: u64 = read_u64(bytes, 8);
        if capacity != self.spec.capacity as u64 {
            return Err(
                ShmError::WrongCapacity { found: capacity, requested: self.spec.capacity },
            );
        }
        let payload_capacity: u32 = read_u32(bytes, 24);
        if payload_capacity as u64 != self.spec.payload_capacity as u64 {
            return Err(
                ShmError::WrongPayloadCapacity {
                    found: payload_capacity,
                    requested: self.spec.payload_capacity,
                },
            );
        }
        let slot_stride: u32 = read_u32(bytes, 28);
        if slot_stride as u64 != self.slot_stride as u64 {
            return Err(
                ShmError::WrongSlotStride { found: slot_stride, requested: self.slot_stride },
            );
        }
        Ok(())
    }
}

/// The parts of a segment lie in it one after the other.
pub proof fn lemma_sizes(geometry: ShmGeometry)
    requires
        geometry.wf(),
    ensures
        HEADER_SIZE + geometry.lane_count * LANE_HEADER_SIZE == geometry.slots_offset,
        geometry.slots_offset <= geometry.size,
        geometry.slot_stride >= SLOT_HEADER_SIZE + geometry.spec.payload_capacity,
        geometry.slot_stride > 0,
{
    let area = geometry.lane_count * (geometry.spec.capacity * geometry.slot_stride);
    assert(area >= 0) by (nonlinear_arith)
        requires
            area == geometry.lane_count * (geometry.spec.capacity * geometry.slot_stride),
            geometry.lane_count >= 0,
            geometry.spec.capacity >= 0,
            geometry.slot_stride >= 0,
    ;
}

/// Every slot of every lane lies inside the segment, behind the headers.
pub proof fn lemma_slot_fits(geometry: ShmGeometry, lane: int, index: int)
    requires
        geometry.wf(),
        0 <= lane < geometry.lane_count,
        0 <= index < geometry.spec.capacity,
    ensures
        geometry.slots_offset <= geometry.slot_start(lane, index),
        geometry.slot_start(lane, index) + geometry.slot_stride <= geometry.size,
{
    lemma_sizes(geometry);
    let capacity = geometry.spec.capacity as int;
    let lanes = geometry.lane_count as int;
    let stride = geometry.slot_stride as int;
    let place = lane * capacity + index;
    assert(0 <= place && place + 1 <= lanes * capacity) by (nonlinear_arith)
        requires
            place == lane * capacity + index,
            0 <= lane < lanes,
            0 <= index < capacity,
    ;
    assert(0 <= place * stride && place * stride + stride <= lanes * (capacity * stride))
        by (nonlinear_arith)
        requires
            0 <= place,
            place + 1 <= lanes * capacity,
            0 < stride,
    ;
}

/// Different slots do not overlap.
pub proof fn lemma_slots_apart(
    geometry: ShmGeometry,
    lane: int,
    index: int,
    other_lane: int,
    other_index: int,
)
    requires
        geometry.wf(),
        0 <= lane < geometry.lane_count,
        0 <= index < geometry.spec.capacity,
        0 <= other_lane < geometry.lane_count,
        0 <= other_index < geometry.spec.capacity,
        lane != other_lane || index != other_index,
    ensures
        ({
            let one = geometry.slot_start(lane, index);
            let other = geometry.slot_start(other_lane, other_index);
            one + geometry.slot_stride <= other || other + geometry.slot_stride <= one
        }),
{
    lemma_sizes(geometry);
    let capacity = geometry.spec.capacity as int;
    let stride = geometry.slot_stride as int;
    let place = lane * capacity + index;
    let other = other_lane * capacity + other_index;
    assert(place != other) by (nonlinear_arith)
        requires
            place == lane * capacity + index,
            other == other_lane * capacity + other_index,
            0 <= index < capacity,
            0 <= other_index < capacity,
            lane != other_lane || index != other_index,
    ;
    if place < other {
        assert(place * stride + stride <= other * stride) by (nonlinear_arith)
            requires
                place + 1 <= other,
                0 < stride,
        ;
    } else {
        assert(other * stride + stride <= place * stride) by (nonlinear_arith)
            requires
                other + 1 <= place,
                0 < stride,
        ;
    }
}

/// A segment that begins with a geometry's own header passes that geometry's
/// check.
pub proof fn law_own_header_passes(geometry: ShmGeometry, bytes: Seq<u8>)
    requires
        geometry.wf(),
        stands_at(bytes, 0, geometry.header()),
    ensures
        geometry.header_error(bytes) is None,
{
    let header = geometry.header();
    assert(header.len() == 64);
    assert(header.subrange(8, 16) =~= le64(geometry.spec.capacity as u64));
    assert(header.subrange(16, 20) =~= le32(MAGIC));
    assert(header.subrange(20, 24) =~= le32(VERSION));
    assert(header.subrange(24, 28) =~= le32(geometry.spec.payload_capacity as u32));
    assert(header.subrange(28, 32) =~= le32(geometry.slot_stride as u32));
    assert(header[32] == geometry.kind);
    assert(header[33] == geometry.spec.topology.code());
    assert(header.subrange(34, 36) =~= le16(geometry.lane_count as u16));
    let front = bytes.subrange(0, 64);
    assert(front == header);
    assert(bytes[32] == front[32]);
    assert(bytes[33] == front[33]);
    assert(bytes.subrange(8, 16) =~= front.subrange(8, 16));
    assert(bytes.subrange(16, 20) =~= front.subrange(16, 20));
    assert(bytes.subrange(20, 24) =~= front.subrange(20, 24));
    assert(bytes.subrange(24, 28) =~= front.subrange(24, 28));
    assert(bytes.subrange(28, 32) =~= front.subrange(28, 32));
    assert(bytes.subrange(34, 36) =~= front.subrange(34, 36));
    lemma_read_u64(bytes, 8, geometry.spec.capacity as u64);
    lemma_read_u32(bytes, 16, MAGIC);
    lemma_read_u32(bytes, 20, VERSION);
    lemma_read_u32(bytes, 24, geometry.spec.payload_capacity as u32);
    lemma_read_u32(bytes, 28, geometry.slot_stride as u32);
    lemma_read_u16(bytes, 34, geometry.lane_count as u16);
}

impl ShmError {
    /// The error, in words, about a segment of this name.
    pub open spec fn text(self, name: Seq<char>) -> Seq<char> {
        match self {
            ShmError::FleetEmpty => "ShmRing fleet size must be > 0"@,
            ShmError::CapacityZero => "ShmRing capacity must be > 0"@,
            ShmError::CapacityNotPowerOfTwo => "ShmRing capacity must be a power of two"@,
            ShmError::PayloadCapacityTooLarge => "ShmRing payload capacity must fit in u32"@,
            ShmError::SlotSizeOverflow => "ShmRing slot size overflow"@,
            ShmError::SlotStrideOverflow => "ShmRing slot stride overflow"@,
            ShmError::SlotStrideTooLarge => "ShmRing slot stride must fit in u32"@,
            ShmError::LaneHeaderSizeOverflow => "ShmRing lane header size overflow"@,
            ShmError::SlotsOffsetOverflow => "ShmRing slots offset overflow"@,
            ShmError::LaneSizeOverflow => "ShmRing lane size overflow"@,
            ShmError::SlotsSizeOverflow => "ShmRing slots size overflow"@,
            ShmError::SegmentSizeOverflow => "ShmRing segment size overflow"@,
            ShmError::SegmentTooSmall { actual, requested } => "SHM segment "@ + name + " size "@
                + digits(actual as nat) + " is smaller than requested mapping "@
                + digits(requested as nat),
            ShmError::WrongMagic { found } => "SHM segment "@ + name + " has wrong magic "@
                + hex_text(found) + " (expected 0x4F524254)"@,
            ShmError::WrongVersion { found } => "SHM segment "@ + name + " version "@
                + digits(found as nat) + " != local 3"@,
            ShmError::WrongKind { found, requested } => "SHM segment "@ + name + " kind "@
                + digits(found as nat) + " != requested "@ + digits(requested as nat),
            ShmError::WrongTopology { found, requested } => "SHM segment "@ + name + " topology "@
                + digits(found as nat) + " != requested "@ + digits(requested as nat),
            ShmError::WrongLaneCount { found, requested } => "SHM segment "@ + name
                + " lane count "@ + digits(found as nat) + " != requested "@
                + digits(requested as nat),
            ShmError::WrongCapacity { found, requested } => "SHM segment "@ + name + " capacity "@
                + digits(found as nat) + " != requested "@ + digits(requested as nat),
            ShmError::WrongPayloadCapacity { found, requested } => "SHM segment "@ + name
                + " payload capacity "@ + digits(found as nat) + " != requested "@
                + digits(requested as nat),
            ShmError::WrongSlotStride { found, requested } => "SHM segment "@ + name
                + " slot stride "@ + digits(found as nat) + " != requested "@
                + digits(requested as nat),
            ShmError::PayloadTooLarge { len, max } => "payload "@ + digits(len as nat)
                + " > ring payload capacity "@ + digits(max as nat),
            ShmError::BatchTooLarge { len, max } => "batch "@ + digits(len as nat)
                + " > ring capacity "@ + digits(max as nat),
            ShmError::SpecReused { kind, requested, existing } => "OrbitTyped KIND "@
                + digits(kind as nat) + " was reused with ring spec "@ + spec_text(requested)
                + "; existing spec is "@ + spec_text(existing),
        }
    }

    /// The error, in words, about a segment of this name.
    pub fn to_string(&self, name: &str) -> (text: String)
        ensures
            text@ == self.text(name@),
    {
        match self {
            ShmError::FleetEmpty => "ShmRing fleet size must be > 0".to_owned(),
            ShmError::CapacityZero => "ShmRing capacity must be > 0".to_owned(),
            ShmError::CapacityNotPowerOfTwo => "ShmRing capacity must be a power of two".to_owned(),
            ShmError::PayloadCapacityTooLarge => "ShmRing payload capacity must fit in u32".to_owned(),
            ShmError::SlotSizeOverflow => "ShmRing slot size overflow".to_owned(),
            ShmError::SlotStrideOverflow => "ShmRing slot stride overflow".to_owned(),
            ShmError::SlotStrideTooLarge => "ShmRing slot stride must fit in u32".to_owned(),
            ShmError::LaneHeaderSizeOverflow => "ShmRing lane header size overflow".to_owned(),
            ShmError::SlotsOffsetOverflow => "ShmRing slots offset overflow".to_owned(),
            ShmError::LaneSizeOverflow => "ShmRing lane size overflow".to_owned(),
            ShmError::SlotsSizeOverflow => "ShmRing slots size overflow".to_owned(),
            ShmError::SegmentSizeOverflow => "ShmRing segment size overflow".to_owned(),
            ShmError::SegmentTooSmall { actual, requested } => {
                let mut text: String = "SHM segment ".to_owned();
                text.append(name);
                text.append(" size ");
                push_number(&mut text, *actual as u64);
                text.append(" is smaller than requested mapping ");
                push_number(&mut text, *requested as u64);
                text
            },
            ShmError::WrongMagic { found } => {
                let mut text: String = "SHM segment ".to_owned();
                text.append(name);
                text.append(" has wrong magic ");
                push_hex(&mut text, *found);
                text.append(" (expected 0x4F524254)");
                text
            },
            ShmError::WrongVersion { found } => {
                let mut text: String = "SHM segment ".to_owned();
                text.append(name);
                text.append(" version ");
                push_number(&mut text, *found as u64);
                text.append(" != local 3");
                text
            },
            ShmError::WrongKind { found, requested } => {
                let mut text: String = "SHM segment ".to_owned();
                text.append(name);
                text.append(" kind ");
                push_number(&mut text, *found as u64);
                text.append(" != requested ");
                push_number(&mut text, *requested as u64);
                text
            },
            ShmError::WrongTopology { found, requested } => {
                let mut text: String = "SHM segment ".to_owned();
                text.append(name);
                text.append(" topology ");
                push_number(&mut text, *found as u64);
                text.append(" != requested ");
                push_number(&mut text, *requested as u64);
                text
            },
            ShmError::WrongLaneCount { found, requested } => {
                let mut text: String = "SHM segment ".to_owned();
                text.append(name);
                text.append(" lane count ");
                push_number(&mut text, *found as u64);
                text.append(" != requested ");
                push_number(&mut text, *requested as u64);
                text
            },
            ShmError::WrongCapacity { found, requested } => {
                let mut text: String = "SHM segment ".to_owned();
                text.append(name);
                text.append(" capacity ");
                push_number(&mut text, *found as u64);
                text.append(" != requested ");
                push_number(&mut text, *requested as u64);
                text
            },
            ShmError::WrongPayloadCapacity { found, requested } => {
                let mut text: String = "SHM segment ".to_owned();
                text.append(name);
                text.append(" payload capacity ");
                push_number(&mut text, *found as u64);
                text.append(" != requested ");
                push_number(&mut text, *requested as u64);
                text
            },
            ShmError::WrongSlotStride { found, requested } => {
                let mut text: String = "SHM segment ".to_owned();
                text.append(name);
                text.append(" slot stride ");
                push_number(&mut text, *found as u64);
                text.append(" != requested ");
                push_number(&mut text, *requested as u64);
                text
            },
            ShmError::PayloadTooLarge { len, max } => {
                let mut text: String = "payload ".to_owned();
                push_number(&mut text, *len as u64);
                text.append(" > ring payload capacity ");
                push_number(&mut text, *max as u64);
                text
            },
            ShmError::BatchTooLarge { len, max } => {
                let mut text: String = "batch ".to_owned();
                push_number(&mut text, *len as u64);
                text.append(" > ring capacity ");
                push_number(&mut text, *max as u64);
                text
            },
            ShmError::SpecReused { kind, requested, existing } => {
                let mut text: String = "OrbitTyped KIND ".to_owned();
                push_number(&mut text, *kind as u64);
                text.append(" was reused with ring spec ");
                push_spec(&mut text, requested);
                text.append("; existing spec is ");
                push_spec(&mut text, existing);
                text
            },
        }
    }
}

/// How far apart slots stand: each has room for its header and its payload, begins on a
/// cache line of its own, and wastes less than a line.
pub proof fn law_slots_stand_on_cache_lines(payload_capacity: int)
    requires
        0 <= payload_capacity,
    ensures
        stride_of(payload_capacity) % 64 == 0,
        32 + payload_capacity <= stride_of(payload_capacity) < 32 + payload_capacity + 64,
{
    let padded = 32 + payload_capacity + 63;
    vstd::arithmetic::div_mod::lemma_fundamental_div_mod(padded, 64);
    vstd::arithmetic::div_mod::lemma_mod_bound(padded, 64);
    assert(stride_of(payload_capacity) == padded - padded % 64);
}

/// Which rings can be laid out: those with a capacity that is a power of two, for a fleet
/// that is not empty, whose slots and whose segment can be addressed.
pub proof fn law_rings_are_laid_out_where_they_fit(spec: RingSpec, fleet_capacity: u16)
    ensures
        layout_error(spec, fleet_capacity) is None ==> {
            &&& spec.capacity > 0 && is_pow2(spec.capacity as int)
            &&& spec.payload_capacity <= u32::MAX
            &&& fleet_capacity > 0
            &&& stride_of(spec.payload_capacity as int) <= u32::MAX
            &&& segment_size_of(spec, spec.lanes_for(fleet_capacity)) <= usize::MAX
        },
        spec.capacity > 0 && is_pow2(spec.capacity as int) && spec.payload_capacity <= u32::MAX
            && fleet_capacity > 0 && stride_of(spec.payload_capacity as int) <= u32::MAX
            && segment_size_of(spec, spec.lanes_for(fleet_capacity)) <= u32::MAX ==> layout_error(
            spec,
            fleet_capacity,
        ) is None,
        spec.capacity == 0 ==> layout_error(spec, fleet_capacity) == Some(ShmError::CapacityZero),
        spec.capacity > 0 && !is_pow2(spec.capacity as int) ==> layout_error(spec, fleet_capacity)
            == Some(ShmError::CapacityNotPowerOfTwo),
{
    let stride = stride_of(spec.payload_capacity as int);
    let lanes = spec.lanes_for(fleet_capacity);
    law_slots_stand_on_cache_lines(spec.payload_capacity as int);
    assert(0 <= spec.capacity * stride) by (nonlinear_arith)
        requires
            0 <= spec.capacity,
            0 <= stride,
    ;
    let per_lane = spec.capacity * stride;
    if lanes >= 1 {
        assert(per_lane <= lanes * per_lane) by (nonlinear_arith)
            requires
                0 <= per_lane,
                1 <= lanes,
        ;
    }
}

/// How large a segment is: a header, a line for each lane, and the slots of every lane.
pub proof fn law_segment_size(spec: RingSpec, lanes: int)
    ensures
        segment_size_of(spec, lanes) == 64 + 64 * lanes + lanes * (spec.capacity * stride_of(
            spec.payload_capacity as int,
        )),
{
}

/// Slots of a segment do not overlap: those of a lane stand one behind the other, and
/// lanes one behind the other, behind the headers and inside the segment.
pub proof fn law_slots_do_not_overlap(
    geometry: ShmGeometry,
    lane: int,
    index: int,
    other_lane: int,
    other_index: int,
)
    requires
        geometry.wf(),
        0 <= lane < geometry.lane_count,
        0 <= index < geometry.spec.capacity,
        0 <= other_lane < geometry.lane_count,
        0 <= other_index < geometry.spec.capacity,
        lane < other_lane || (lane == other_lane && index < other_index),
    ensures
        geometry.slot_start(lane, index) + 32 + geometry.spec.payload_capacity
            <= geometry.slot_start(other_lane, other_index),
        geometry.slot_start(lane, index) >= 64 + 64 * geometry.lane_count,
        geometry.slot_start(other_lane, other_index) + 32 + geometry.spec.payload_capacity
            <= geometry.size,
{
    let stride = geometry.slot_stride as int;
    let capacity = geometry.spec.capacity as int;
    law_slots_stand_on_cache_lines(geometry.spec.payload_capacity as int);
    let first = lane * capacity + index;
    let second = other_lane * capacity + other_index;
    let lanes = geometry.lane_count as int;
    assert(first + 1 <= second) by (nonlinear_arith)
        requires
            first == lane * capacity + index,
            second == other_lane * capacity + other_index,
            0 <= index < capacity,
            0 <= other_index,
            lane < other_lane || (lane == other_lane && index < other_index),
    ;
    assert(first * stride + stride <= second * stride) by (nonlinear_arith)
        requires
            first + 1 <= second,
            0 <= stride,
    ;
    assert(0 <= first) by (nonlinear_arith)
        requires
            first == lane * capacity + index,
            0 <= lane,
            0 <= capacity,
            0 <= index,
    ;
    assert(0 <= first * stride) by (nonlinear_arith)
        requires
            0 <= first,
            0 <= stride,
    ;
    assert(second + 1 <= lanes * capacity) by (nonlinear_arith)
        requires
            second == other_lane * capacity + other_index,
            other_index < capacity,
            0 <= capacity,
            other_lane + 1 <= lanes,
    ;
    assert(second * stride + stride <= lanes * (capacity * stride)) by (nonlinear_arith)
        requires
            second + 1 <= lanes * capacity,
            0 <= stride,
    ;
}

/// A segment's header passes exactly where every field of it is the one that is asked for.
pub proof fn law_header_passes_where_every_field_agrees(geometry: ShmGeometry, bytes: Seq<u8>)
    ensures
        geometry.header_error(bytes) is None <==> {
            &&& u64_at(bytes, 8) == geometry.spec.capacity
            &&& u32_at(bytes, 16) == 0x4F52_4254
            &&& u32_at(bytes, 20) == 3
            &&& u32_at(bytes, 24) == geometry.spec.payload_capacity
            &&& u32_at(bytes, 28) == geometry.slot_stride
            &&& bytes[32] == geometry.kind
            &&& bytes[33] == geometry.spec.topology.code()
            &&& u16_at(bytes, 34) == geometry.lane_count
        },
{
}

} // verus!
