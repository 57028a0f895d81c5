//! Text cells of fixed width, beside the table of scalars.
use vstd::prelude::*;
use vstd::slice::slice_subrange;
use vstd::string::*;
use vstd::utf8::*;

use crate::cell::error::Error;
use crate::cell::ids::TextId;
use crate::cell::place::{next_free, next_generation, next_generation_of};
use crate::cell::{Cells, CellsView};
use crate::codec::{overwrite, to_vec, write_over, zeroes};
use crate::numbers::min_of;
use crate::table::{push_zeroes, StateHeader};
use crate::text::text_of;

verus! {

/// The kind of the text table's segment.
pub const CELL_TEXT_KIND: u8 = 227;

/// How many text cells there can be at once.
pub const CELL_TEXT_CAPACITY: usize = 1_024;

/// Bytes that one text cell can hold.
pub const CELL_TEXT_MAX: usize = 240;

/// One place of the text table.
#[derive(Debug)]
pub struct TextSlot {
    /// Zero where the place is free, one where a cell stands in it. A place with any
    /// other state is neither.
    pub state: u8,
    /// One while someone writes the text.
    pub writer: u8,
    pub len: u16,
    pub generation: u32,
    /// Counts the steps of writes: even between writes, odd inside one.
    pub version: u32,
    /// Room for the longest text.
    pub bytes: Vec<u8>,
}

/// What a place of the text table says.
#[verifier::ext_equal]
pub struct TextSlotView {
    pub state: u8,
    pub writer: u8,
    pub len: u16,
    pub generation: u32,
    pub version: u32,
    pub bytes: Seq<u8>,
}

impl View for TextSlot {
    type V = TextSlotView;

    open spec fn view(&self) -> TextSlotView {
        TextSlotView {
            state: self.state,
            writer: self.writer,
            len: self.len,
            generation: self.generation,
            version: self.version,
            bytes: self.bytes@,
        }
    }
}

impl TextSlotView {
    /// A place that was never used.
    pub open spec fn blank() -> TextSlotView {
        TextSlotView {
            state: 0,
            writer: 0,
            len: 0,
            generation: 0,
            version: 0,
            bytes: Seq::new(CELL_TEXT_MAX as nat, |i: int| 0u8),
        }
    }

    /// The place has room for the longest text.
    pub open spec fn wf(self) -> bool {
        self.bytes.len() == CELL_TEXT_MAX
    }

    /// True between writes.
    pub open spec fn settled(self) -> bool {
        self.version % 2 == 0
    }

    /// The text, in bytes.
    pub open spec fn text(self) -> Seq<u8> {
        self.bytes.subrange(0, min_of(self.len as int, CELL_TEXT_MAX as int))
    }

    /// The place with a new text in it.
    pub open spec fn installed(self, text: Seq<u8>) -> TextSlotView {
        TextSlotView {
            state: 1,
            writer: 0,
            len: text.len() as u16,
            generation: next_generation(self.generation),
            version: 0,
            bytes: text + Seq::new((CELL_TEXT_MAX - text.len()) as nat, |i: int| 0u8),
        }
    }

    /// The place after a text was written over what stands from a byte on, and ends
    /// the text.
    pub open spec fn written(self, from: int, text: Seq<u8>) -> TextSlotView {
        TextSlotView {
            len: (from + text.len()) as u16,
            version: self.version.wrapping_add(2),
            bytes: overwrite(self.bytes, from, text),
            ..self
        }
    }
}

/// What the text table holds.
#[verifier::ext_equal]
pub struct TextTableView {
    pub slots: Seq<TextSlotView>,
    /// Where the next allocation starts to look.
    pub hint: u32,
}

impl TextTableView {
    /// A table without text cells.
    pub open spec fn blank() -> TextTableView {
        TextTableView {
            slots: Seq::new(CELL_TEXT_CAPACITY as nat, |i: int| TextSlotView::blank()),
            hint: 0,
        }
    }

    /// Every place is well formed.
    pub open spec fn wf(self) -> bool {
        &&& self.slots.len() == CELL_TEXT_CAPACITY
        &&& self.hint < CELL_TEXT_CAPACITY
        &&& forall|i: int| 0 <= i < self.slots.len() ==> (#[trigger] self.slots[i]).wf()
    }

    /// True when an id names a live text cell.
    pub open spec fn live(self, id: TextId) -> bool {
        &&& id.index < self.slots.len()
        &&& self.slots[id.index as int].state == 1
        &&& self.slots[id.index as int].generation == id.generation
    }

    /// Which places are taken.
    pub open spec fn taken(self) -> Seq<bool> {
        self.slots.map_values(|slot: TextSlotView| slot.state != 0)
    }

    /// The place that the next text cell takes.
    pub open spec fn free(self) -> Option<int> {
        next_free(self.taken(), self.hint as int, 0)
    }

    /// The text of a live cell, in bytes.
    pub open spec fn text(self, id: TextId) -> Seq<u8> {
        self.slots[id.index as int].text()
    }

    /// True when a reader of the id need not wait: it names no live cell, or one
    /// whose text is between writes.
    pub open spec fn readable(self, id: TextId) -> bool {
        self.live(id) ==> self.slots[id.index as int].settled()
    }

    /// True when an id names a live cell that holds a text, and nobody writes it.
    pub open spec fn tells(self, id: TextId, text: Seq<u8>) -> bool {
        &&& self.live(id)
        &&& self.readable(id)
        &&& self.writable(id)
        &&& self.text(id) == text
        &&& valid_utf8(text)
    }

    /// True when a writer of the id need not wait: it names no live cell, or one
    /// that has no other writer.
    pub open spec fn writable(self, id: TextId) -> bool {
        self.live(id) ==> self.slots[id.index as int].writer == 0
    }

    /// The table after a text was written over a cell's, from a byte on.
    pub open spec fn written(self, id: TextId, from: int, text: Seq<u8>) -> TextTableView {
        TextTableView {
            slots: self.slots.update(
                id.index as int,
                self.slots[id.index as int].written(from, text),
            ),
            ..self
        }
    }
}

/// The text cells.
#[derive(Debug)]
pub struct TextTable {
    pub slots: Vec<TextSlot>,
    pub hint: u32,
}

impl View for TextTable {
    type V = TextTableView;

    open spec fn view(&self) -> TextTableView {
        TextTableView {
            slots: self.slots@.map_values(|slot: TextSlot| slot@),
            hint: self.hint,
        }
    }
}

/// The text of a cell whose bytes were copied.
pub fn copied_text(id: TextId, bytes: Vec<u8>) -> (text: Result<String, Error>)
    ensures
        match text {
            Ok(text) => {
                &&& valid_utf8(bytes@)
                &&& encode_utf8(text@) == bytes@
                &&& text@ == decode_utf8(bytes@)
            },
            Err(error) => !valid_utf8(bytes@) && error is Corrupt && error->Corrupt_0@ == id.text(),
        },
{
    match text_of(bytes) {
        Some(text) => {
            proof {
                encode_utf8_valid_utf8(text@);
                encode_utf8_decode_utf8(text@);
            }
            Ok(text)
        },
        None => Err(Error::Corrupt(id.to_string())),
    }
}

/// True when a copy that was taken between two looks at a cell's version is of
/// one text: no write was under way, and none came between.
pub fn copy_is_whole(before: u32, after: u32) -> (whole: bool)
    ensures
        whole == (before % 2 == 0 && after == before),
{
    before % 2 == 0 && after == before
}

impl TextTable {
    /// A table without text cells.
    pub fn new() -> (table: TextTable)
        ensures
            table@ == TextTableView::blank(),
            table@.wf(),
    {
        let mut slots: Vec<TextSlot> = Vec::new();
        while slots.len() < CELL_TEXT_CAPACITY
            invariant
                slots@.len() <= CELL_TEXT_CAPACITY,
                forall|i: int|
                    0 <= i < slots@.len() ==> (#[trigger] slots@[i])@ == TextSlotView::blank(),
            decreases CELL_TEXT_CAPACITY - slots@.len(),
        {
            let slot = TextSlot {
                state: 0,
                writer: 0,
                len: 0,
                generation: 0,
                version: 0,
                bytes: zeroes(CELL_TEXT_MAX),
            };
            assert(slot@ =~= TextSlotView::blank());
            slots.push(slot);
        }
        let table = TextTable { slots, hint: 0 };
        assert(table@ =~= TextTableView::blank());
        table
    }

    /// Takes a text cell that holds `text`.
    pub fn allocate(&mut self, text: &str) -> (id: Result<TextId, Error>)
        requires
            old(self)@.wf(),
        ensures
            final(self)@.wf(),
            if text.spec_bytes().len() > CELL_TEXT_MAX {
                &&& id == Err::<TextId, Error>(
                    Error::TooLong { len: text.spec_bytes().len() as usize, max: CELL_TEXT_MAX },
                )
                &&& final(self)@ == old(self)@
            } else {
                match old(self)@.free() {
                    None => {
                        &&& id == Err::<TextId, Error>(
                            Error::Full { capacity: CELL_TEXT_CAPACITY },
                        )
                        &&& final(self)@ == old(self)@
                    },
                    Some(place) => {
                        let slot = old(self)@.slots[place].installed(text.spec_bytes());
                        &&& id == Ok::<TextId, Error>(
                            TextId { index: place as u32, generation: slot.generation },
                        )
                        &&& final(self)@ == (TextTableView {
                            slots: old(self)@.slots.update(place, slot),
                            hint: ((place + 1) % CELL_TEXT_CAPACITY as int) as u32,
                        })
                        &&& final(self)@.tells(id->Ok_0, text.spec_bytes())
                    },
                }
            },
    {
        let bytes: &[u8] = text.as_bytes();
        if bytes.len() > CELL_TEXT_MAX {
            return Err(Error::TooLong { len: bytes.len(), max: CELL_TEXT_MAX });
        }
        let mut steps: usize = 0;
        while steps < CELL_TEXT_CAPACITY
            invariant
                steps <= CELL_TEXT_CAPACITY,
                self@ == old(self)@,
                self@.wf(),
                bytes@ == text.spec_bytes(),
                bytes@.len() <= CELL_TEXT_MAX,
                self@.free() == next_free(self@.taken(), self@.hint as int, steps as int),
            decreases CELL_TEXT_CAPACITY - steps,
        {
            let index: usize = (self.hint as usize + steps) % CELL_TEXT_CAPACITY;
            assert(self@.slots[index as int] == self.slots@[index as int]@);
            assert(self@.taken()[index as int] == (self@.slots[index as int].state != 0));
            if self.slots[index].state == 0 {
                let generation: u32 = next_generation_of(self.slots[index].generation);
                let mut room: Vec<u8> = to_vec(bytes);
                push_zeroes(&mut room, CELL_TEXT_MAX - bytes.len());
                let slot = TextSlot {
                    state: 1,
                    writer: 0,
                    len: bytes.len() as u16,
                    generation,
                    version: 0,
                    bytes: room,
                };
                let ghost installed = slot@;
                self.slots.set(index, slot);
                self.hint = ((index + 1) % CELL_TEXT_CAPACITY) as u32;
                proof {
                    assert(installed =~= old(self)@.slots[index as int].installed(bytes@));
                    assert(self@.slots =~= old(self)@.slots.update(index as int, installed));
                    assert(installed.text() =~= bytes@);
                    encode_utf8_valid_utf8(text@);
                }
                return Ok(TextId { index: index as u32, generation });
            }
            steps = steps + 1;
        }
        Err(Error::Full { capacity: CELL_TEXT_CAPACITY })
    }

    /// True when an id names a live text cell.
    pub fn is_live(&self, id: TextId) -> (live: bool)
        ensures
            live == self@.live(id),
    {
        let index: usize = id.index as usize;
        if index >= self.slots.len() {
            return false;
        }
        assert(self@.slots[index as int] == self.slots@[index as int]@);
        self.slots[index].state == 1 && self.slots[index].generation == id.generation
    }

    /// Gives a text cell back.
    pub fn release(&mut self, id: TextId) -> (released: Result<(), Error>)
        requires
            old(self)@.wf(),
        ensures
            final(self)@.wf(),
            if old(self)@.live(id) {
                let slot = old(self)@.slots[id.index as int];
                &&& released is Ok
                &&& final(self)@ == (TextTableView {
                    slots: old(self)@.slots.update(
                        id.index as int,
                        (TextSlotView { state: 0, ..slot }),
                    ),
                    ..old(self)@
                })
            } else {
                &&& released == Err::<(), Error>(Error::StaleText(id))
                &&& final(self)@ == old(self)@
            },
    {
        if !self.is_live(id) {
            return Err(Error::StaleText(id));
        }
        let index: usize = id.index as usize;
        assert(self@.slots[index as int] == self.slots@[index as int]@);
        let slot: &mut TextSlot = &mut self.slots[index];
        slot.state = 0;
        proof {
            let after = TextSlotView { state: 0, ..old(self)@.slots[index as int] };
            assert(self@.slots =~= old(self)@.slots.update(index as int, after));
        }
        Ok(())
    }

    /// Clears the table.
    pub fn reset_all(&mut self)
        requires
            old(self)@.wf(),
        ensures
            final(self)@.wf(),
            final(self)@ == (TextTableView {
                slots: old(self)@.slots.map_values(
                    |slot: TextSlotView| TextSlotView { state: 0, ..slot },
                ),
                hint: 0,
            }),
    {
        let ghost before = self@.slots;
        let mut index: usize = 0;
        while index < self.slots.len()
            invariant
                index <= self.slots@.len(),
                self.slots@.len() == before.len(),
                before == old(self)@.slots,
                forall|i: int| index <= i < before.len() ==> (#[trigger] self.slots@[i])@ == before[i],
                forall|i: int|
                    0 <= i < index ==> (#[trigger] self.slots@[i])@ == (TextSlotView {
                        state: 0,
                        ..before[i]
                    }),
            decreases self.slots@.len() - index,
        {
            let slot: &mut TextSlot = &mut self.slots[index];
            slot.state = 0;
            index = index + 1;
        }
        self.hint = 0;
        proof {
            assert(self@.slots =~= before.map_values(
                |slot: TextSlotView| TextSlotView { state: 0, ..slot },
            ));
            assert forall|i: int| 0 <= i < self@.slots.len() implies (
            #[trigger] self@.slots[i]).wf() by {
                assert(before[i].wf());
            }
        }
    }

    /// Writes over the text of a live cell, from a byte on.
    fn write(&mut self, id: TextId, from: usize, text: &[u8])
        requires
            old(self)@.wf(),
            old(self)@.live(id),
            from + text@.len() <= CELL_TEXT_MAX,
        ensures
            final(self)@.wf(),
            final(self)@ == old(self)@.written(id, from as int, text@),
    {
        let index: usize = id.index as usize;
        assert(self@.slots[index as int] == self.slots@[index as int]@);
        assert(self@.slots[index as int].wf());
        let slot: &mut TextSlot = &mut self.slots[index];
        slot.version = slot.version.wrapping_add(2);
        write_over(&mut slot.bytes, from, text);
        slot.len = (from + text.len()) as u16;
        proof {
            let after = old(self)@.slots[index as int].written(from as int, text@);
            assert(self@.slots =~= old(self)@.slots.update(index as int, after));
        }
    }
}

/// One text cell.
#[derive(Clone, Copy, Debug, PartialEq, Eq, Structural)]
pub struct Text {
    pub id: TextId,
}

impl Text {
    /// The address.
    pub fn id(&self) -> (id: TextId)
        ensures
            id == self.id,
    {
        self.id
    }

    /// True when the cell is gone, or its text is between writes. A text that a writer
    /// left in the middle of a write stays so: a reader would wait for ever.
    pub fn is_readable(&self, cells: &Cells) -> (readable: bool)
        requires
            cells@.wf(),
        ensures
            readable == cells@.text.readable(self.id),
    {
        let table: &TextTable = cells.text();
        if !table.is_live(self.id) {
            return true;
        }
        let index: usize = self.id.index as usize;
        assert(table@.slots[index as int] == table.slots@[index as int]@);
        table.slots[index].version % 2 == 0
    }

    /// True when the cell is gone, or nobody else writes its text. A writer that never
    /// left keeps the next one waiting for ever.
    pub fn is_writable(&self, cells: &Cells) -> (writable: bool)
        requires
            cells@.wf(),
        ensures
            writable == cells@.text.writable(self.id),
    {
        let table: &TextTable = cells.text();
        if !table.is_live(self.id) {
            return true;
        }
        let index: usize = self.id.index as usize;
        assert(table@.slots[index as int] == table.slots@[index as int]@);
        table.slots[index].writer == 0
    }

    /// A copy of the current text.
    pub fn load(&self, cells: &Cells) -> (text: Result<String, Error>)
        requires
            cells@.wf(),
            cells@.text.readable(self.id),
        ensures
            if !cells@.text.live(self.id) {
                text == Err::<String, Error>(Error::StaleText(self.id))
            } else if valid_utf8(cells@.text.text(self.id)) {
                &&& text is Ok
                &&& encode_utf8(text->Ok_0@) == cells@.text.text(self.id)
                &&& text->Ok_0@ == decode_utf8(cells@.text.text(self.id))
            } else {
                &&& text is Err
                &&& text->Err_0 is Corrupt
                &&& text->Err_0->Corrupt_0@ == self.id.text()
            },
    {
        if !cells.text().is_live(self.id) {
            return Err(Error::StaleText(self.id));
        }
        let table: &TextTable = cells.text();
        let index: usize = self.id.index as usize;
        assert(table@.slots[index as int] == table.slots@[index as int]@);
        assert(table@.slots[index as int].wf());
        let slot: &TextSlot = &table.slots[index];
        let len: usize = if slot.len as usize <= CELL_TEXT_MAX {
            slot.len as usize
        } else {
            CELL_TEXT_MAX
        };
        let copy: Vec<u8> = to_vec(slice_subrange(slot.bytes.as_slice(), 0, len));
        assert(copy@ =~= cells@.text.text(self.id));
        copied_text(self.id, copy)
    }

    /// Bytes of the current text.
    pub fn len(&self, cells: &Cells) -> (len: Result<usize, Error>)
        requires
            cells@.wf(),
        ensures
            len == if cells@.text.live(self.id) {
                Ok(cells@.text.slots[self.id.index as int].len as usize)
            } else {
                Err::<usize, Error>(Error::StaleText(self.id))
            },
    {
        let table: &TextTable = cells.text();
        if !table.is_live(self.id) {
            return Err(Error::StaleText(self.id));
        }
        let index: usize = self.id.index as usize;
        assert(table@.slots[index as int] == table.slots@[index as int]@);
        Ok(table.slots[index].len as usize)
    }

    /// True when the current text is empty.
    pub fn is_empty(&self, cells: &Cells) -> (empty: Result<bool, Error>)
        requires
            cells@.wf(),
        ensures
            empty == if cells@.text.live(self.id) {
                Ok(cells@.text.slots[self.id.index as int].len == 0)
            } else {
                Err::<bool, Error>(Error::StaleText(self.id))
            },
    {
        match self.len(cells) {
            Ok(len) => Ok(len == 0),
            Err(error) => Err(error),
        }
    }

    /// Replaces the text.
    pub fn store(&self, cells: &mut Cells, text: &str) -> (stored: Result<(), Error>)
        requires
            old(cells)@.wf(),
            old(cells)@.text.writable(self.id),
        ensures
            final(cells)@.wf(),
            if text.spec_bytes().len() > CELL_TEXT_MAX {
                &&& stored == Err::<(), Error>(
                    Error::TooLong { len: text.spec_bytes().len() as usize, max: CELL_TEXT_MAX },
                )
                &&& final(cells)@ == old(cells)@
            } else if old(cells)@.text.live(self.id) {
                &&& stored is Ok
                &&& final(cells)@ == (CellsView {
                    text: old(cells)@.text.written(self.id, 0, text.spec_bytes()),
                    ..old(cells)@
                })
                &&& final(cells)@.text.text(self.id) == text.spec_bytes()
                &&& final(cells)@.text.writable(self.id)
                &&& old(cells)@.text.readable(self.id) ==> final(cells)@.text.tells(
                    self.id,
                    text.spec_bytes(),
                )
            } else {
                &&& stored == Err::<(), Error>(Error::StaleText(self.id))
                &&& final(cells)@ == old(cells)@
            },
    {
        let bytes: &[u8] = text.as_bytes();
        if bytes.len() > CELL_TEXT_MAX {
            return Err(Error::TooLong { len: bytes.len(), max: CELL_TEXT_MAX });
        }
        if !cells.text().is_live(self.id) {
            return Err(Error::StaleText(self.id));
        }
        assert(cells@.text.slots[self.id.index as int].wf());
        cells.text_mut().write(self.id, 0, bytes);
        proof {
            assert(cells@.text.text(self.id) =~= bytes@);
            encode_utf8_valid_utf8(text@);
        }
        Ok(())
    }

    /// Appends to the text. A text that would not fit is refused whole.
    pub fn append(&self, cells: &mut Cells, text: &str) -> (total: Result<usize, Error>)
        requires
            old(cells)@.wf(),
            old(cells)@.text.writable(self.id),
        ensures
            final(cells)@.wf(),
            if old(cells)@.text.live(self.id) {
                let current = old(cells)@.text.slots[self.id.index as int].len;
                let whole = current + text.spec_bytes().len();
                if whole > CELL_TEXT_MAX {
                    &&& total == Err::<usize, Error>(
                        Error::TooLong {
                            len: min_of(whole, usize::MAX as int) as usize,
                            max: CELL_TEXT_MAX,
                        },
                    )
                    &&& final(cells)@ == old(cells)@
                } else {
                    &&& total == Ok::<usize, Error>(whole as usize)
                    &&& final(cells)@ == (CellsView {
                        text: old(cells)@.text.written(
                            self.id,
                            current as int,
                            text.spec_bytes(),
                        ),
                        ..old(cells)@
                    })
                    &&& final(cells)@.text.text(self.id) == old(cells)@.text.text(self.id)
                        + text.spec_bytes()
                    &&& final(cells)@.text.writable(self.id)
                    &&& old(cells)@.text.tells(self.id, old(cells)@.text.text(self.id))
                        ==> final(cells)@.text.tells(
                        self.id,
                        old(cells)@.text.text(self.id) + text.spec_bytes(),
                    )
                }
            } else {
                &&& total == Err::<usize, Error>(Error::StaleText(self.id))
                &&& final(cells)@ == old(cells)@
            },
    {
        let bytes: &[u8] = text.as_bytes();
        let current: usize = match self.len(cells) {
            Ok(len) => len,
            Err(error) => {
                return Err(error);
            },
        };
        let total: usize = current.saturating_add(bytes.len());
        if total > CELL_TEXT_MAX {
            return Err(Error::TooLong { len: total, max: CELL_TEXT_MAX });
        }
        assert(cells@.text.slots[self.id.index as int].wf());
        cells.text_mut().write(self.id, current, bytes);
        proof {
            assert(cells@.text.text(self.id) =~= old(cells)@.text.text(self.id) + bytes@);
            encode_utf8_valid_utf8(text@);
            if valid_utf8(old(cells)@.text.text(self.id)) {
                valid_utf8_concat(old(cells)@.text.text(self.id), bytes@);
            }
        }
        Ok(total)
    }

    /// Gives the cell back: every handle to it goes stale.
    pub fn release(self, cells: &mut Cells) -> (released: Result<(), Error>)
        requires
            old(cells)@.wf(),
        ensures
            final(cells)@.wf(),
            if old(cells)@.text.live(self.id) {
                let slot = old(cells)@.text.slots[self.id.index as int];
                &&& released is Ok
                &&& final(cells)@ == (CellsView {
                    text: (TextTableView {
                        slots: old(cells)@.text.slots.update(
                            self.id.index as int,
                            (TextSlotView { state: 0, ..slot }),
                        ),
                        ..old(cells)@.text
                    }),
                    ..old(cells)@
                })
            } else {
                &&& released == Err::<(), Error>(Error::StaleText(self.id))
                &&& final(cells)@ == old(cells)@
            },
    {
        cells.release_text(self.id)
    }
}

/// The header of a text table in shared memory.
pub fn text_header() -> (header: StateHeader)
    ensures
        header == (StateHeader {
            magic: 0x4354_5854,
            version: 1,
            header_size: 64,
            capacity: CELL_TEXT_CAPACITY as u32,
            slot_size: 256,
        }),
{
    StateHeader {
        magic: 0x4354_5854,
        version: 1,
        header_size: 64,
        capacity: CELL_TEXT_CAPACITY as u32,
        slot_size: 256,
    }
}

} // verus!
