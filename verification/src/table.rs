//! What the fixed tables in shared memory say about themselves.
use vstd::prelude::*;
use vstd::string::*;

use crate::codec::{
    le16, le32, lemma_read_u16, lemma_read_u32, lemma_stands_part, push_u16, push_u32, read_u16,
    read_u32, u16_at, u32_at,
};
use crate::decimal::{hex_text, push_hex};

verus! {

broadcast use crate::codec::group_widths;

/// The fields by which a state table in shared memory says how it is laid out.
#[derive(Clone, Copy, Debug, PartialEq, Eq, Structural)]
pub struct StateHeader {
    pub magic: u32,
    pub version: u16,
    pub header_size: u16,
    pub capacity: u32,
    pub slot_size: u32,
}

/// Why a table that was found cannot be used.
#[derive(Clone, Copy, Debug, PartialEq, Eq, Structural)]
pub enum HeaderFault {
    /// Another magic number: the segment holds something else.
    WrongMagic { found: u32, expected: u32 },
    /// The right magic number, in another layout.
    Incompatible,
}

impl StateHeader {
    /// Why a table with this header cannot be used where `expected` is wanted.
    pub open spec fn fault(self, expected: StateHeader) -> Option<HeaderFault> {
        if self.magic != expected.magic {
            Some(HeaderFault::WrongMagic { found: self.magic, expected: expected.magic })
        } else if self != expected {
            Some(HeaderFault::Incompatible)
        } else {
            None
        }
    }

    /// Checks the header of a table that was found.
    pub fn check(&self, expected: &StateHeader) -> (checked: Result<(), HeaderFault>)
        ensures
            match self.fault(*expected) {
                Some(fault) => checked == Err::<(), HeaderFault>(fault),
                None => checked is Ok,
            },
    {
        if self.magic != expected.magic {
            return Err(HeaderFault::WrongMagic { found: self.magic, expected: expected.magic });
        }
        if self.version != expected.version || self.header_size != expected.header_size
            || self.capacity != expected.capacity || self.slot_size != expected.slot_size {
            return Err(HeaderFault::Incompatible);
        }
        Ok(())
    }

    /// Bytes of the table: the header and every slot.
    pub fn segment_size(&self) -> (size: u64)
        ensures
            size == self.header_size + self.capacity * self.slot_size,
    {
        assert(self.capacity * self.slot_size <= 0xFFFF_FFFE_0000_0001) by (nonlinear_arith)
            requires
                self.capacity <= 0xFFFF_FFFF,
                self.slot_size <= 0xFFFF_FFFF,
        ;
        self.header_size as u64 + self.capacity as u64 * self.slot_size as u64
    }
}

impl HeaderFault {
    /// The error, in words.
    pub open spec fn text(self, name: Seq<char>, what: Seq<char>) -> Seq<char> {
        match self {
            HeaderFault::WrongMagic { found, expected } => "SHM segment "@ + name
                + " has wrong magic "@ + hex_text(found) + " (expected "@ + hex_text(expected)
                + ")"@,
            HeaderFault::Incompatible => "SHM segment "@ + name + " has an incompatible "@ + what
                + " layout"@,
        }
    }

    /// The error, in words.
    pub fn to_string(&self, name: &str, what: &str) -> (text: String)
        ensures
            text@ == self.text(name@, what@),
    {
        match self {
            HeaderFault::WrongMagic { found, expected } => {
                let mut text: String = "SHM segment ".to_owned();
                text.append(name);
                text.append(" has wrong magic ");
                push_hex(&mut text, *found);
                text.append(" (expected ");
                push_hex(&mut text, *expected);
                text.append(")");
                text
            },
            HeaderFault::Incompatible => {
                let mut text: String = "SHM segment ".to_owned();
                text.append(name);
                text.append(" has an incompatible ");
                text.append(what);
                text.append(" layout");
                text
            },
        }
    }
}

/// Why a table's segment cannot be opened.
#[derive(Clone, Copy, Debug, PartialEq, Eq, Structural)]
pub enum SegmentFault {
    /// The segment is smaller than the table.
    TooSmall { actual: usize, requested: usize },
    /// The segment's header is another one.
    Header(HeaderFault),
}

/// Zero bytes.
pub open spec fn zeros(len: nat) -> Seq<u8> {
    Seq::new(len, |i: int| 0u8)
}

/// The bytes of parts, one behind the other.
pub open spec fn flat(parts: Seq<Seq<u8>>) -> Seq<u8>
    decreases parts.len(),
{
    if parts.len() == 0 {
        Seq::empty()
    } else {
        flat(parts.drop_last()) + parts.last()
    }
}

/// The `i`th of parts of one width stands `i` widths behind the beginning.
pub proof fn lemma_flat(parts: Seq<Seq<u8>>, width: nat, i: int)
    requires
        forall|k: int| 0 <= k < parts.len() ==> (#[trigger] parts[k]).len() == width,
        0 <= i <= parts.len(),
    ensures
        flat(parts).len() == parts.len() * width,
        i < parts.len() ==> {
            &&& 0 <= i * width
            &&& i * width + width <= flat(parts).len()
            &&& flat(parts).subrange(i * width, i * width + width) == parts[i]
        },
    decreases parts.len(),
{
    if parts.len() > 0 {
        let shorter = parts.drop_last();
        let last = parts.len() - 1;
        assert forall|k: int| 0 <= k < shorter.len() implies (#[trigger] shorter[k]).len()
            == width by {
            assert(parts[k].len() == width);
        }
        lemma_flat(shorter, width, if i < last { i } else { shorter.len() as int });
        assert(parts[last].len() == width);
        assert(parts.len() * width == last * width + width) by (nonlinear_arith)
            requires
                parts.len() == last + 1,
        ;
        assert(0 <= i * width) by (nonlinear_arith)
            requires
                0 <= i,
                0 <= width,
        ;
        let whole = flat(parts);
        let head = flat(shorter);
        if i < last {
            assert(whole.subrange(i * width, i * width + width) =~= head.subrange(
                i * width,
                i * width + width,
            ));
        } else if i == last {
            assert(whole.subrange(i * width, i * width + width) =~= parts[last]);
        }
    }
}

/// The bytes of a header, with what follows its fields.
pub open spec fn header_bytes(header: StateHeader, rest: Seq<u8>) -> Seq<u8> {
    le32(header.magic) + le16(header.version) + le16(header.header_size) + le32(header.capacity)
        + le32(header.slot_size) + rest
}

/// The header that stands at the beginning of a segment.
pub open spec fn header_in(bytes: Seq<u8>) -> StateHeader {
    StateHeader {
        magic: u32_at(bytes, 0),
        version: u16_at(bytes, 4),
        header_size: u16_at(bytes, 6),
        capacity: u32_at(bytes, 8),
        slot_size: u32_at(bytes, 12),
    }
}

/// A header that was written is read back.
pub proof fn lemma_header(header: StateHeader, rest: Seq<u8>, tail: Seq<u8>)
    ensures
        header_in(header_bytes(header, rest) + tail) == header,
        header_bytes(header, rest).len() == 16 + rest.len(),
{
    let fields = header_bytes(header, Seq::empty());
    let bytes = header_bytes(header, rest) + tail;
    assert(fields.len() == 16);
    assert(bytes.subrange(0, 16) =~= fields);
    assert(fields.subrange(0, 4) =~= le32(header.magic));
    assert(fields.subrange(4, 6) =~= le16(header.version));
    assert(fields.subrange(6, 8) =~= le16(header.header_size));
    assert(fields.subrange(8, 12) =~= le32(header.capacity));
    assert(fields.subrange(12, 16) =~= le32(header.slot_size));
    lemma_stands_part(bytes, 0, fields, 0, 4);
    lemma_stands_part(bytes, 0, fields, 4, 6);
    lemma_stands_part(bytes, 0, fields, 6, 8);
    lemma_stands_part(bytes, 0, fields, 8, 12);
    lemma_stands_part(bytes, 0, fields, 12, 16);
    lemma_read_u32(bytes, 0, header.magic);
    lemma_read_u16(bytes, 4, header.version);
    lemma_read_u16(bytes, 6, header.header_size);
    lemma_read_u32(bytes, 8, header.capacity);
    lemma_read_u32(bytes, 12, header.slot_size);
}

/// Writes zero bytes behind what is there.
pub fn push_zeroes(bytes: &mut Vec<u8>, len: usize)
    ensures
        final(bytes)@ == old(bytes)@ + zeros(len as nat),
{
    let mut done: usize = 0;
    assert(bytes@ =~= old(bytes)@ + zeros(0));
    while done < len
        invariant
            done <= len,
            bytes@ == old(bytes)@ + zeros(done as nat),
        decreases len - done,
    {
        bytes.push(0);
        done = done + 1;
        assert(bytes@ =~= old(bytes)@ + zeros(done as nat));
    }
}

impl StateHeader {
    /// Bytes of the table.
    pub open spec fn size(self) -> int {
        self.header_size + self.capacity * self.slot_size
    }

    /// Where a slot begins.
    pub open spec fn slot_at(self, i: int) -> int {
        self.header_size + i * self.slot_size
    }

    /// The bytes of a slot.
    pub open spec fn slot_in(self, bytes: Seq<u8>, i: int) -> Seq<u8> {
        bytes.subrange(self.slot_at(i), self.slot_at(i) + self.slot_size)
    }

    /// Why a segment is not one of a table with this header.
    pub open spec fn segment_fault(self, bytes: Seq<u8>) -> Option<SegmentFault> {
        if bytes.len() < self.size() {
            Some(
                SegmentFault::TooSmall {
                    actual: bytes.len() as usize,
                    requested: self.size() as usize,
                },
            )
        } else if header_in(bytes).fault(self) is Some {
            Some(SegmentFault::Header(header_in(bytes).fault(self)->0))
        } else {
            None
        }
    }

    /// Checks the size and the header of a segment.
    pub fn check_segment(&self, bytes: &[u8]) -> (checked: Result<(), SegmentFault>)
        requires
            self.header_size >= 16,
            self.size() <= usize::MAX,
        ensures
            match self.segment_fault(bytes@) {
                Some(fault) => checked == Err::<(), SegmentFault>(fault),
                None => checked is Ok,
            },
    {
        assert(0 <= self.capacity * self.slot_size) by (nonlinear_arith)
            requires
                0 <= self.capacity,
                0 <= self.slot_size,
        ;
        let size: usize = self.segment_size() as usize;
        if bytes.len() < size {
            return Err(SegmentFault::TooSmall { actual: bytes.len(), requested: size });
        }
        let found = StateHeader {
            magic: read_u32(bytes, 0),
            version: read_u16(bytes, 4),
            header_size: read_u16(bytes, 6),
            capacity: read_u32(bytes, 8),
            slot_size: read_u32(bytes, 12),
        };
        match found.check(self) {
            Ok(_) => Ok(()),
            Err(fault) => Err(SegmentFault::Header(fault)),
        }
    }

    /// Writes the fields of the header behind what is there.
    pub fn push(&self, bytes: &mut Vec<u8>)
        ensures
            final(bytes)@ == old(bytes)@ + header_bytes(*self, Seq::empty()),
    {
        push_u32(bytes, self.magic);
        push_u16(bytes, self.version);
        push_u16(bytes, self.header_size);
        push_u32(bytes, self.capacity);
        push_u32(bytes, self.slot_size);
        assert(bytes@ =~= old(bytes)@ + header_bytes(*self, Seq::empty()));
    }

    /// The image of a table is a segment of it, and each slot stands at its
    /// place.
    pub proof fn lemma_image(self, rest: Seq<u8>, slots: Seq<Seq<u8>>, i: int)
        requires
            self.header_size == 16 + rest.len(),
            slots.len() == self.capacity,
            forall|k: int| 0 <= k < slots.len() ==> (#[trigger] slots[k]).len() == self.slot_size,
            0 <= i < slots.len(),
        ensures
            ({
                let image = header_bytes(self, rest) + flat(slots);
                &&& image.len() == self.size()
                &&& self.segment_fault(image) is None
                &&& self.slot_in(image, i) == slots[i]
                &&& 0 <= self.slot_at(i)
                &&& self.slot_at(i) + self.slot_size <= image.len()
            }),
    {
        let image = header_bytes(self, rest) + flat(slots);
        lemma_header(self, rest, flat(slots));
        lemma_flat(slots, self.slot_size as nat, i);
        let from = i * self.slot_size;
        assert(self.slot_in(image, i) =~= flat(slots).subrange(from, from + self.slot_size));
    }
}

/// A slot of a segment lies inside it.
pub proof fn lemma_slot_inside(header: StateHeader, i: int)
    requires
        0 <= i < header.capacity,
    ensures
        0 <= header.slot_at(i),
        header.slot_at(i) + header.slot_size <= header.size(),
{
    assert(0 <= i * header.slot_size && i * header.slot_size + header.slot_size <= header.capacity
        * header.slot_size) by (nonlinear_arith)
        requires
            0 <= i < header.capacity,
            0 <= header.slot_size,
    ;
}

/// Which segments are accepted as a table: those that are large enough and have, field for
/// field, the header that is asked for.
pub proof fn law_segments_are_accepted_by_their_header(header: StateHeader, bytes: Seq<u8>)
    ensures
        header.segment_fault(bytes) is None <==> {
            &&& bytes.len() >= header.header_size + header.capacity * header.slot_size
            &&& u32_at(bytes, 0) == header.magic
            &&& u16_at(bytes, 4) == header.version
            &&& u16_at(bytes, 6) == header.header_size
            &&& u32_at(bytes, 8) == header.capacity
            &&& u32_at(bytes, 12) == header.slot_size
        },
        bytes.len() >= header.size() && u32_at(bytes, 0) != header.magic ==> header.segment_fault(
            bytes,
        ) == Some(
            SegmentFault::Header(
                HeaderFault::WrongMagic { found: u32_at(bytes, 0), expected: header.magic },
            ),
        ),
{
}

/// Slots stand behind the header, one behind the other.
pub proof fn law_slots_stand_one_behind_the_other(header: StateHeader, bytes: Seq<u8>, i: int)
    ensures
        header.slot_at(0) == header.header_size,
        header.slot_at(i + 1) == header.slot_at(i) + header.slot_size,
        header.slot_in(bytes, i) == bytes.subrange(
            header.header_size + i * header.slot_size,
            header.header_size + i * header.slot_size + header.slot_size,
        ),
{
    assert((i + 1) * header.slot_size == i * header.slot_size + header.slot_size)
        by (nonlinear_arith);
}

} // verus!
