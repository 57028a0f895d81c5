//! The cell tables as they stand in shared memory.
use vstd::prelude::*;
use vstd::slice::slice_subrange;

use crate::cell::text::{
    text_header, TextSlot, TextSlotView, TextTable, TextTableView, CELL_TEXT_CAPACITY,
    CELL_TEXT_MAX,
};
use crate::cell::{cell_header, CellSlot, Cells, CellsView, CELL_CAPACITY};
use crate::codec::{
    le16, le32, le64, lemma_read_u16, lemma_read_u32, lemma_read_u64, push_u16, push_u32, push_u64,
    read_u16, read_u32, read_u64, to_vec, u16_at, u32_at, u64_at,
};
use crate::table::{
    flat, header_bytes, lemma_header, lemma_slot_inside, push_zeroes, zeros, SegmentFault,
    StateHeader,
};

verus! {

broadcast use crate::codec::group_widths;

/// The header of the scalar table.
pub open spec fn cells_header() -> StateHeader {
    StateHeader {
        magic: 0x4345_4C4C,
        version: 2,
        header_size: 64,
        capacity: CELL_CAPACITY as u32,
        slot_size: 64,
    }
}

/// The header of the text table.
pub open spec fn texts_header() -> StateHeader {
    StateHeader {
        magic: 0x4354_5854,
        version: 1,
        header_size: 64,
        capacity: CELL_TEXT_CAPACITY as u32,
        slot_size: 256,
    }
}

/// The bytes of a scalar slot. The word behind the write count belongs to those
/// who wait on the cell.
pub open spec fn cell_bytes(slot: CellSlot) -> Seq<u8> {
    seq![slot.state, slot.tag, 0u8, 0u8] + le32(slot.generation) + le64(slot.value)
        + le32(slot.changes) + zeros(44)
}

/// The scalar slot of some bytes.
pub open spec fn cell_in(bytes: Seq<u8>) -> CellSlot {
    CellSlot {
        state: bytes[0],
        tag: bytes[1],
        generation: u32_at(bytes, 4),
        value: u64_at(bytes, 8),
        changes: u32_at(bytes, 16),
    }
}

/// A scalar slot that was written is read back.
pub proof fn lemma_cell_round_trip(slot: CellSlot)
    ensures
        cell_bytes(slot).len() == 64,
        cell_in(cell_bytes(slot)) == slot,
{
    let bytes = cell_bytes(slot);
    assert(bytes[0] == slot.state && bytes[1] == slot.tag);
    assert(bytes.subrange(4, 8) =~= le32(slot.generation));
    assert(bytes.subrange(8, 16) =~= le64(slot.value));
    assert(bytes.subrange(16, 20) =~= le32(slot.changes));
    lemma_read_u32(bytes, 4, slot.generation);
    lemma_read_u64(bytes, 8, slot.value);
    lemma_read_u32(bytes, 16, slot.changes);
}

/// The bytes of a text slot.
pub open spec fn text_bytes(slot: TextSlotView) -> Seq<u8> {
    seq![slot.state, slot.writer] + le16(slot.len) + le32(slot.generation) + le32(slot.version)
        + zeros(4) + slot.bytes
}

/// The text slot of some bytes.
pub open spec fn text_in(bytes: Seq<u8>) -> TextSlotView {
    TextSlotView {
        state: bytes[0],
        writer: bytes[1],
        len: u16_at(bytes, 2),
        generation: u32_at(bytes, 4),
        version: u32_at(bytes, 8),
        bytes: bytes.subrange(16, 16 + CELL_TEXT_MAX),
    }
}

/// A text slot that was written is read back.
pub proof fn lemma_text_round_trip(slot: TextSlotView)
    requires
        slot.wf(),
    ensures
        text_bytes(slot).len() == 256,
        text_in(text_bytes(slot)) == slot,
{
    let bytes = text_bytes(slot);
    assert(bytes[0] == slot.state && bytes[1] == slot.writer);
    assert(bytes.subrange(2, 4) =~= le16(slot.len));
    assert(bytes.subrange(4, 8) =~= le32(slot.generation));
    assert(bytes.subrange(8, 12) =~= le32(slot.version));
    lemma_read_u16(bytes, 2, slot.len);
    lemma_read_u32(bytes, 4, slot.generation);
    lemma_read_u32(bytes, 8, slot.version);
    assert(bytes.subrange(16, 16 + CELL_TEXT_MAX) =~= slot.bytes);
}

/// The bytes of scalar slots.
pub open spec fn cell_images(slots: Seq<CellSlot>) -> Seq<Seq<u8>> {
    slots.map_values(|slot: CellSlot| cell_bytes(slot))
}

/// The bytes of text slots.
pub open spec fn text_images(slots: Seq<TextSlotView>) -> Seq<Seq<u8>> {
    slots.map_values(|slot: TextSlotView| text_bytes(slot))
}

/// The segment of the scalar table.
pub open spec fn cells_image(view: CellsView) -> Seq<u8> {
    header_bytes(cells_header(), le32(view.hint) + zeros(44)) + flat(cell_images(view.slots))
}

/// The segment of the text table.
pub open spec fn texts_image(view: TextTableView) -> Seq<u8> {
    header_bytes(texts_header(), le32(view.hint) + zeros(44)) + flat(text_images(view.slots))
}

/// What the scalar table in a segment holds.
pub open spec fn cells_of(bytes: Seq<u8>) -> Seq<CellSlot> {
    Seq::new(CELL_CAPACITY as nat, |i: int| cell_in(cells_header().slot_in(bytes, i)))
}

/// What the text table in a segment holds.
pub open spec fn texts_of(bytes: Seq<u8>) -> Seq<TextSlotView> {
    Seq::new(CELL_TEXT_CAPACITY as nat, |i: int| text_in(texts_header().slot_in(bytes, i)))
}

/// What a process finds in a segment that a table was written to.
pub proof fn law_cells_survive_the_segment(view: CellsView)
    requires
        view.wf(),
    ensures
        cells_header().segment_fault(cells_image(view)) is None,
        cells_of(cells_image(view)) == view.slots,
        u32_at(cells_image(view), 16) == view.hint,
{
    let rest = le32(view.hint) + zeros(44);
    let images = cell_images(view.slots);
    let image = cells_image(view);
    assert forall|k: int| 0 <= k < images.len() implies (#[trigger] images[k]).len() == 64 by {
        lemma_cell_round_trip(view.slots[k]);
    }
    cells_header().lemma_image(rest, images, 0);
    assert forall|i: int| 0 <= i < CELL_CAPACITY implies cell_in(
        #[trigger] cells_header().slot_in(image, i),
    ) == view.slots[i] by {
        cells_header().lemma_image(rest, images, i);
        lemma_cell_round_trip(view.slots[i]);
    }
    assert(cells_of(image) =~= view.slots);
    lemma_header(cells_header(), rest, flat(images));
    assert(image.subrange(16, 20) =~= le32(view.hint));
    lemma_read_u32(image, 16, view.hint);
}

/// What a process finds in a segment that a text table was written to.
pub proof fn law_texts_survive_the_segment(view: TextTableView)
    requires
        view.wf(),
    ensures
        texts_header().segment_fault(texts_image(view)) is None,
        texts_of(texts_image(view)) == view.slots,
        u32_at(texts_image(view), 16) == view.hint,
{
    let rest = le32(view.hint) + zeros(44);
    let images = text_images(view.slots);
    let image = texts_image(view);
    assert forall|k: int| 0 <= k < images.len() implies (#[trigger] images[k]).len() == 256 by {
        assert(view.slots[k].wf());
        lemma_text_round_trip(view.slots[k]);
    }
    texts_header().lemma_image(rest, images, 0);
    assert forall|i: int| 0 <= i < CELL_TEXT_CAPACITY implies text_in(
        #[trigger] texts_header().slot_in(image, i),
    ) == view.slots[i] by {
        texts_header().lemma_image(rest, images, i);
        assert(view.slots[i].wf());
        lemma_text_round_trip(view.slots[i]);
    }
    assert(texts_of(image) =~= view.slots);
    lemma_header(texts_header(), rest, flat(images));
    assert(image.subrange(16, 20) =~= le32(view.hint));
    lemma_read_u32(image, 16, view.hint);
}

fn push_cell(bytes: &mut Vec<u8>, slot: &CellSlot)
    ensures
        final(bytes)@ == old(bytes)@ + cell_bytes(*slot),
{
    bytes.push(slot.state);
    bytes.push(slot.tag);
    bytes.push(0);
    bytes.push(0);
    push_u32(bytes, slot.generation);
    push_u64(bytes, slot.value);
    push_u32(bytes, slot.changes);
    push_zeroes(bytes, 44);
    assert(bytes@ =~= old(bytes)@ + cell_bytes(*slot));
}

fn read_cell(bytes: &[u8]) -> (slot: CellSlot)
    requires
        bytes@.len() == 64,
    ensures
        slot == cell_in(bytes@),
{
    CellSlot {
        state: bytes[0],
        tag: bytes[1],
        generation: read_u32(bytes, 4),
        value: read_u64(bytes, 8),
        changes: read_u32(bytes, 16),
    }
}

fn push_text(bytes: &mut Vec<u8>, slot: &TextSlot)
    ensures
        final(bytes)@ == old(bytes)@ + text_bytes(slot@),
{
    bytes.push(slot.state);
    bytes.push(slot.writer);
    push_u16(bytes, slot.len);
    push_u32(bytes, slot.generation);
    push_u32(bytes, slot.version);
    push_zeroes(bytes, 4);
    bytes.extend_from_slice(slot.bytes.as_slice());
    assert(bytes@ =~= old(bytes)@ + text_bytes(slot@));
}

fn read_text(bytes: &[u8]) -> (slot: TextSlot)
    requires
        bytes@.len() == 256,
    ensures
        slot@ == text_in(bytes@),
{
    let slot = TextSlot {
        state: bytes[0],
        writer: bytes[1],
        len: read_u16(bytes, 2),
        generation: read_u32(bytes, 4),
        version: read_u32(bytes, 8),
        bytes: to_vec(slice_subrange(bytes, 16, 16 + CELL_TEXT_MAX)),
    };
    assert(slot@ =~= text_in(bytes@));
    slot
}

impl Cells {
    /// The segment of the scalar table.
    pub fn segment(&self) -> (bytes: Vec<u8>)
        requires
            self@.wf(),
        ensures
            bytes@ == cells_image(self@),
    {
        let (slots, hint) = self.parts();
        let mut bytes: Vec<u8> = Vec::new();
        cell_header().push(&mut bytes);
        push_u32(&mut bytes, hint);
        push_zeroes(&mut bytes, 44);
        let ghost head = header_bytes(cells_header(), le32(hint) + zeros(44));
        assert(bytes@ =~= head);
        let ghost images = cell_images(self@.slots);
        let mut index: usize = 0;
        assert(images.subrange(0, 0) =~= Seq::<Seq<u8>>::empty());
        assert(bytes@ =~= head + flat(images.subrange(0, 0)));
        while index < slots.len()
            invariant
                index <= slots@.len(),
                slots@ == self@.slots,
                images == cell_images(self@.slots),
                bytes@ == head + flat(images.subrange(0, index as int)),
            decreases slots@.len() - index,
        {
            let ghost longer = images.subrange(0, index + 1);
            assert(longer.drop_last() =~= images.subrange(0, index as int));
            assert(longer.last() == cell_bytes(slots@[index as int]));
            push_cell(&mut bytes, &slots[index]);
            assert(bytes@ =~= head + flat(longer));
            index = index + 1;
        }
        assert(images.subrange(0, images.len() as int) =~= images);
        bytes
    }

    /// The segment of the text table.
    pub fn text_segment(&self) -> (bytes: Vec<u8>)
        requires
            self@.wf(),
        ensures
            bytes@ == texts_image(self@.text),
    {
        let table: &TextTable = self.text();
        let mut bytes: Vec<u8> = Vec::new();
        text_header().push(&mut bytes);
        push_u32(&mut bytes, table.hint);
        push_zeroes(&mut bytes, 44);
        let ghost head = header_bytes(texts_header(), le32(table.hint) + zeros(44));
        assert(bytes@ =~= head);
        let ghost images = text_images(self@.text.slots);
        let mut index: usize = 0;
        assert(images.subrange(0, 0) =~= Seq::<Seq<u8>>::empty());
        assert(bytes@ =~= head + flat(images.subrange(0, 0)));
        while index < table.slots.len()
            invariant
                index <= table.slots@.len(),
                table@ == self@.text,
                self@.wf(),
                images == text_images(self@.text.slots),
                bytes@ == head + flat(images.subrange(0, index as int)),
            decreases table.slots@.len() - index,
        {
            let ghost longer = images.subrange(0, index + 1);
            assert(longer.drop_last() =~= images.subrange(0, index as int));
            assert(self@.text.slots[index as int] == table.slots@[index as int]@);
            assert(self@.text.slots[index as int].wf());
            assert(longer.last() == text_bytes(table.slots@[index as int]@));
            push_text(&mut bytes, &table.slots[index]);
            assert(bytes@ =~= head + flat(longer));
            index = index + 1;
        }
        assert(images.subrange(0, images.len() as int) =~= images);
        bytes
    }

    /// Opens the two tables: over the segments that exist, or over fresh ones.
    pub fn open_segments(scalar: Option<Vec<u8>>, text: Option<Vec<u8>>) -> (cells: Result<
        Cells,
        SegmentFault,
    >)
        ensures
            match cells {
                Ok(cells) => {
                    &&& cells@.wf()
                    &&& match scalar {
                        Some(bytes) => {
                            &&& cells_header().segment_fault(bytes@) is None
                            &&& cells@.slots == cells_of(bytes@)
                            &&& cells@.hint == u32_at(bytes@, 16) % (CELL_CAPACITY as u32)
                        },
                        None => {
                            &&& cells@.slots == CellsView::blank().slots
                            &&& cells@.hint == 0
                        },
                    }
                    &&& match text {
                        Some(bytes) => {
                            &&& texts_header().segment_fault(bytes@) is None
                            &&& cells@.text == (TextTableView {
                                slots: texts_of(bytes@),
                                hint: u32_at(bytes@, 16) % (CELL_TEXT_CAPACITY as u32),
                            })
                        },
                        None => cells@.text == TextTableView::blank(),
                    }
                },
                Err(fault) => {
                    ||| scalar is Some && cells_header().segment_fault(scalar->0@) == Some(fault)
                    ||| text is Some && texts_header().segment_fault(text->0@) == Some(fault)
                },
            },
    {
        let texts: TextTable = match text {
            Some(bytes) => match open_texts(bytes.as_slice()) {
                Ok(table) => table,
                Err(fault) => {
                    return Err(fault);
                },
            },
            None => TextTable::new(),
        };
        match scalar {
            Some(bytes) => {
                let (slots, hint) = match open_cells(bytes.as_slice()) {
                    Ok(parts) => parts,
                    Err(fault) => {
                        return Err(fault);
                    },
                };
                Ok(Cells::from_parts(slots, hint, texts))
            },
            None => {
                let fresh = Cells::new();
                let (slots, hint) = fresh.parts();
                let mut copy: Vec<CellSlot> = Vec::new();
                let mut index: usize = 0;
                while index < slots.len()
                    invariant
                        index <= slots@.len(),
                        copy@ == slots@.subrange(0, index as int),
                    decreases slots@.len() - index,
                {
                    copy.push(slots[index]);
                    index = index + 1;
                    assert(copy@ =~= slots@.subrange(0, index as int));
                }
                assert(copy@ =~= slots@);
                Ok(Cells::from_parts(copy, hint, texts))
            },
        }
    }
}

fn open_cells(bytes: &[u8]) -> (parts: Result<(Vec<CellSlot>, u32), SegmentFault>)
    ensures
        match parts {
            Ok((slots, hint)) => {
                &&& cells_header().segment_fault(bytes@) is None
                &&& slots@ == cells_of(bytes@)
                &&& hint == u32_at(bytes@, 16) % (CELL_CAPACITY as u32)
            },
            Err(fault) => cells_header().segment_fault(bytes@) == Some(fault),
        },
{
    let header = cell_header();
    match header.check_segment(bytes) {
        Ok(_) => {},
        Err(fault) => {
            return Err(fault);
        },
    }
    let mut slots: Vec<CellSlot> = Vec::new();
    let mut index: usize = 0;
    while index < CELL_CAPACITY
        invariant
            index <= CELL_CAPACITY,
            cells_header().segment_fault(bytes@) is None,
            slots@.len() == index,
            forall|i: int|
                0 <= i < index ==> cell_in(#[trigger] cells_header().slot_in(bytes@, i))
                    == slots@[i],
        decreases CELL_CAPACITY - index,
    {
        proof {
            lemma_slot_inside(cells_header(), index as int);
        }
        let from: usize = 64 + index * 64;
        slots.push(read_cell(slice_subrange(bytes, from, from + 64)));
        index = index + 1;
    }
    assert(slots@ =~= cells_of(bytes@));
    Ok((slots, read_u32(bytes, 16) % (CELL_CAPACITY as u32)))
}

fn open_texts(bytes: &[u8]) -> (table: Result<TextTable, SegmentFault>)
    ensures
        match table {
            Ok(table) => {
                &&& texts_header().segment_fault(bytes@) is None
                &&& table@ == (TextTableView {
                    slots: texts_of(bytes@),
                    hint: u32_at(bytes@, 16) % (CELL_TEXT_CAPACITY as u32),
                })
                &&& table@.wf()
            },
            Err(fault) => texts_header().segment_fault(bytes@) == Some(fault),
        },
{
    let header = text_header();
    match header.check_segment(bytes) {
        Ok(_) => {},
        Err(fault) => {
            return Err(fault);
        },
    }
    let mut slots: Vec<TextSlot> = Vec::new();
    let mut index: usize = 0;
    while index < CELL_TEXT_CAPACITY
        invariant
            index <= CELL_TEXT_CAPACITY,
            texts_header().segment_fault(bytes@) is None,
            slots@.len() == index,
            forall|i: int|
                0 <= i < index ==> text_in(#[trigger] texts_header().slot_in(bytes@, i))
                    == slots@[i]@,
        decreases CELL_TEXT_CAPACITY - index,
    {
        proof {
            lemma_slot_inside(texts_header(), index as int);
        }
        let from: usize = 64 + index * 256;
        slots.push(read_text(slice_subrange(bytes, from, from + 256)));
        index = index + 1;
    }
    let table = TextTable { slots, hint: read_u32(bytes, 16) % (CELL_TEXT_CAPACITY as u32) };
    proof {
        assert(table@.slots =~= texts_of(bytes@));
        assert forall|i: int| 0 <= i < table@.slots.len() implies (#[trigger] table@.slots[i]).wf() by {
            assert(table@.slots[i] == text_in(texts_header().slot_in(bytes@, i)));
        }
    }
    Ok(table)
}

/// Where the fields of a cell and of a text stand in their slots.
pub proof fn law_cell_slot_layout(cell: CellSlot, text: TextSlotView)
    requires
        text.wf(),
    ensures
        ({
            let bytes = cell_bytes(cell);
            &&& bytes.len() == 64
            &&& bytes[0] == cell.state
            &&& bytes[1] == cell.tag
            &&& u32_at(bytes, 4) == cell.generation
            &&& u64_at(bytes, 8) == cell.value
            &&& u32_at(bytes, 16) == cell.changes
        }),
        ({
            let bytes = text_bytes(text);
            &&& bytes.len() == 256
            &&& bytes[0] == text.state
            &&& bytes[1] == text.writer
            &&& u16_at(bytes, 2) == text.len
            &&& u32_at(bytes, 4) == text.generation
            &&& u32_at(bytes, 8) == text.version
            &&& bytes.subrange(16, 256) == text.bytes
        }),
{
    lemma_cell_round_trip(cell);
    lemma_text_round_trip(text);
    assert(cell_in(cell_bytes(cell)) == cell);
    assert(text_in(text_bytes(text)) == text);
    assert(text_bytes(text).subrange(16, 256) =~= text.bytes);
    let bytes = cell_bytes(cell);
    assert(bytes[0] == cell.state && bytes[1] == cell.tag);
    assert(bytes.subrange(4, 8) =~= le32(cell.generation));
    assert(bytes.subrange(8, 16) =~= le64(cell.value));
    assert(bytes.subrange(16, 20) =~= le32(cell.changes));
    lemma_read_u32(bytes, 4, cell.generation);
    lemma_read_u64(bytes, 8, cell.value);
    lemma_read_u32(bytes, 16, cell.changes);
    let words = text_bytes(text);
    assert(words[0] == text.state && words[1] == text.writer);
    assert(words.subrange(2, 4) =~= le16(text.len));
    assert(words.subrange(4, 8) =~= le32(text.generation));
    assert(words.subrange(8, 12) =~= le32(text.version));
    lemma_read_u16(words, 2, text.len);
    lemma_read_u32(words, 4, text.generation);
    lemma_read_u32(words, 8, text.version);
}

} // verus!
