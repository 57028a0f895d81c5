//! Typed cells in one fleet-shared table, addressed by id.
//!
//! A cell is a place, not a name: whoever opens a cell's id reads and updates
//! the same 64 bits. Every id carries the generation of its slot, so a handle
//! kept past a release is stale and never reaches whoever took the slot next.
pub mod error;
pub mod ids;
pub mod image;
pub mod laws;
pub mod place;
pub mod text;

use std::marker::PhantomData;

use vstd::prelude::*;
use vstd::string::*;

use crate::cell::place::{next_free, next_generation, next_generation_of};
use crate::cell::text::{TextSlotView, TextTable, TextTableView};
use crate::table::StateHeader;

verus! {

pub use crate::cell::error::Error;
pub use crate::cell::ids::{CellId, TextId};
pub use crate::cell::text::{Text, CELL_TEXT_CAPACITY, CELL_TEXT_KIND, CELL_TEXT_MAX};

/// The kind of the cell table's segment.
pub const CELL_STATE_KIND: u8 = 233;

/// How many cells there can be at once.
pub const CELL_CAPACITY: usize = 4_096;

/// A value that fits one cell: 64 bits, and a tag that says which type they
/// spell.
pub trait CellType: Copy + Send + Sync + 'static {
    const TAG: u8;

    const NAME: &'static str;

    /// The bits of a value.
    spec fn bits(self) -> u64;

    /// The value of bits.
    spec fn of_bits(bits: u64) -> Self;

    /// The bits of a value are read back as the value.
    proof fn lemma_bits(self)
        ensures
            Self::of_bits(self.bits()) == self,
    ;

    /// The bits of a value.
    fn to_bits(self) -> (bits: u64)
        ensures
            bits == self.bits(),
    ;

    /// The value of bits.
    fn from_bits(bits: u64) -> (value: Self)
        ensures
            value == Self::of_bits(bits),
    ;
}

/// The bits of a signed number: two's complement.
pub open spec fn signed_bits(value: i64) -> u64 {
    if value >= 0 {
        value as u64
    } else {
        (value + 0x1_0000_0000_0000_0000) as u64
    }
}

/// The signed number of bits: two's complement.
pub open spec fn signed_of(bits: u64) -> i64 {
    if bits < 0x8000_0000_0000_0000 {
        bits as i64
    } else {
        (bits - 0x1_0000_0000_0000_0000) as i64
    }
}

impl CellType for i64 {
    const TAG: u8 = 1;

    const NAME: &'static str = "int";

    open spec fn bits(self) -> u64 {
        signed_bits(self)
    }

    open spec fn of_bits(bits: u64) -> i64 {
        signed_of(bits)
    }

    proof fn lemma_bits(self) {
    }

    fn to_bits(self) -> (bits: u64) {
        if self >= 0 {
            self as u64
        } else {
            (self - i64::MIN) as u64 + 0x8000_0000_0000_0000
        }
    }

    fn from_bits(bits: u64) -> (value: i64) {
        if bits < 0x8000_0000_0000_0000 {
            bits as i64
        } else {
            (bits - 0x8000_0000_0000_0000) as i64 + i64::MIN
        }
    }
}

impl CellType for u64 {
    const TAG: u8 = 2;

    const NAME: &'static str = "unsigned";

    open spec fn bits(self) -> u64 {
        self
    }

    open spec fn of_bits(bits: u64) -> u64 {
        bits
    }

    proof fn lemma_bits(self) {
    }

    fn to_bits(self) -> (bits: u64) {
        self
    }

    fn from_bits(bits: u64) -> (value: u64) {
        bits
    }
}

/// The bits of a float.
#[derive(Clone, Copy, Debug, PartialEq, Eq, Structural)]
pub struct FloatBits(pub u64);

impl CellType for FloatBits {
    const TAG: u8 = 3;

    const NAME: &'static str = "float";

    open spec fn bits(self) -> u64 {
        self.0
    }

    open spec fn of_bits(bits: u64) -> FloatBits {
        FloatBits(bits)
    }

    proof fn lemma_bits(self) {
    }

    fn to_bits(self) -> (bits: u64) {
        self.0
    }

    fn from_bits(bits: u64) -> (value: FloatBits) {
        FloatBits(bits)
    }
}

impl CellType for bool {
    const TAG: u8 = 4;

    const NAME: &'static str = "bool";

    open spec fn bits(self) -> u64 {
        if self {
            1
        } else {
            0
        }
    }

    open spec fn of_bits(bits: u64) -> bool {
        bits != 0
    }

    proof fn lemma_bits(self) {
    }

    fn to_bits(self) -> (bits: u64) {
        if self {
            1
        } else {
            0
        }
    }

    fn from_bits(bits: u64) -> (value: bool) {
        bits != 0
    }
}

/// The name of the type that a tag stands for.
pub open spec fn named_type(tag: u8) -> Seq<char> {
    if tag == 1 {
        "int"@
    } else if tag == 2 {
        "unsigned"@
    } else if tag == 3 {
        "float"@
    } else if tag == 4 {
        "bool"@
    } else {
        "unknown"@
    }
}

/// The name of the type that a tag stands for.
pub fn name_of_tag(tag: u8) -> (name: &'static str)
    ensures
        name@ == named_type(tag),
{
    match tag {
        1 => "int",
        2 => "unsigned",
        3 => "float",
        4 => "bool",
        _ => "unknown",
    }
}

/// One place of the cell table.
#[derive(Clone, Copy, Debug, PartialEq, Eq, Structural)]
pub struct CellSlot {
    /// Zero where the place is free, one where a cell stands in it. A place with any
    /// other state is neither.
    pub state: u8,
    pub tag: u8,
    pub generation: u32,
    pub value: u64,
    /// Counts every write, and the release: what a waiter waits on.
    pub changes: u32,
}

impl CellSlot {
    /// A place that was never used.
    pub open spec fn blank() -> CellSlot {
        CellSlot { state: 0, tag: 0, generation: 0, value: 0, changes: 0 }
    }

    /// The place with a new cell in it.
    pub open spec fn installed(self, tag: u8, value: u64) -> CellSlot {
        CellSlot {
            state: 1,
            tag,
            generation: next_generation(self.generation),
            value,
            changes: 0,
        }
    }

    /// The place after its value was written.
    pub open spec fn written(self, value: u64) -> CellSlot {
        CellSlot { value, changes: self.changes.wrapping_add(1), ..self }
    }

    /// The place after its cell was given back.
    pub open spec fn released(self) -> CellSlot {
        CellSlot { state: 0, changes: self.changes.wrapping_add(1), ..self }
    }
}

/// What the cell tables hold.
#[verifier::ext_equal]
pub struct CellsView {
    pub slots: Seq<CellSlot>,
    /// Where the next allocation starts to look.
    pub hint: u32,
    pub text: TextTableView,
}

impl CellsView {
    /// Tables without cells.
    pub open spec fn blank() -> CellsView {
        CellsView {
            slots: Seq::new(CELL_CAPACITY as nat, |i: int| CellSlot::blank()),
            hint: 0,
            text: TextTableView::blank(),
        }
    }

    /// The tables have their size.
    pub open spec fn wf(self) -> bool {
        &&& self.slots.len() == CELL_CAPACITY
        &&& self.hint < CELL_CAPACITY
        &&& self.text.wf()
    }

    /// True when an id names a live cell.
    pub open spec fn live(self, id: CellId) -> bool {
        &&& id.index < self.slots.len()
        &&& self.slots[id.index as int].state == 1
        &&& self.slots[id.index as int].generation == id.generation
    }

    /// The bits of a live cell.
    pub open spec fn value(self, id: CellId) -> u64 {
        self.slots[id.index as int].value
    }

    /// Which places are taken.
    pub open spec fn taken(self) -> Seq<bool> {
        self.slots.map_values(|slot: CellSlot| slot.state != 0)
    }

    /// The place that the next cell takes.
    pub open spec fn free(self) -> Option<int> {
        next_free(self.taken(), self.hint as int, 0)
    }

    /// The tables after a cell was written.
    pub open spec fn written(self, id: CellId, value: u64) -> CellsView {
        CellsView {
            slots: self.slots.update(
                id.index as int,
                self.slots[id.index as int].written(value),
            ),
            ..self
        }
    }

    /// The tables after a cell was given back.
    pub open spec fn released(self, id: CellId) -> CellsView {
        CellsView {
            slots: self.slots.update(id.index as int, self.slots[id.index as int].released()),
            ..self
        }
    }
}

/// The fleet's cell tables, scalar and text.
#[derive(Debug)]
pub struct Cells {
    slots: Vec<CellSlot>,
    hint: u32,
    text: TextTable,
}

impl View for Cells {
    type V = CellsView;

    closed spec fn view(&self) -> CellsView {
        CellsView { slots: self.slots@, hint: self.hint, text: self.text@ }
    }
}

impl Cells {
    /// Tables without cells.
    pub fn new() -> (cells: Cells)
        ensures
            cells@ == CellsView::blank(),
            cells@.wf(),
    {
        let slot = CellSlot { state: 0, tag: 0, generation: 0, value: 0, changes: 0 };
        let slots: Vec<CellSlot> = vec![slot; CELL_CAPACITY];
        let cells = Cells { slots, hint: 0, text: TextTable::new() };
        assert(cells@.slots =~= CellsView::blank().slots);
        cells
    }

    /// Tables of these slots.
    pub(crate) fn from_parts(slots: Vec<CellSlot>, hint: u32, text: TextTable) -> (cells: Cells)
        ensures
            cells@ == (CellsView { slots: slots@, hint, text: text@ }),
    {
        Cells { slots, hint, text }
    }

    /// The slots of the scalar cells, and where the next allocation looks.
    pub(crate) fn parts(&self) -> (parts: (&Vec<CellSlot>, u32))
        ensures
            parts.0@ == self@.slots,
            parts.1 == self@.hint,
    {
        (&self.slots, self.hint)
    }

    /// The text cells.
    pub(crate) fn text(&self) -> (text: &TextTable)
        ensures
            text@ == self@.text,
    {
        &self.text
    }

    /// The text cells, to be changed.
    pub(crate) fn text_mut(&mut self) -> (text: &mut TextTable)
        ensures
            text@ == old(self)@.text,
            final(self)@ == (CellsView { text: final(text)@, ..old(self)@ }),
    {
        &mut self.text
    }

    /// Takes a text cell that holds `initial`.
    pub fn allocate_text(&mut self, initial: &str) -> (text: Result<Text, Error>)
        requires
            old(self)@.wf(),
        ensures
            final(self)@.wf(),
            if initial.spec_bytes().len() > CELL_TEXT_MAX {
                &&& text == Err::<Text, Error>(
                    Error::TooLong { len: initial.spec_bytes().len() as usize, max: CELL_TEXT_MAX },
                )
                &&& final(self)@ == old(self)@
            } else {
                match old(self)@.text.free() {
                    None => {
                        &&& text == Err::<Text, Error>(
                            Error::Full { capacity: CELL_TEXT_CAPACITY },
                        )
                        &&& final(self)@ == old(self)@
                    },
                    Some(place) => {
                        let slot = old(self)@.text.slots[place].installed(initial.spec_bytes());
                        &&& text == Ok::<Text, Error>(
                            Text {
                                id: (TextId { index: place as u32, generation: slot.generation }),
                            },
                        )
                        &&& final(self)@ == (CellsView {
                            text: (TextTableView {
                                slots: old(self)@.text.slots.update(place, slot),
                                hint: ((place + 1) % CELL_TEXT_CAPACITY as int) as u32,
                            }),
                            ..old(self)@
                        })
                        &&& final(self)@.text.tells(text->Ok_0.id, initial.spec_bytes())
                    },
                }
            },
    {
        match self.text.allocate(initial) {
            Ok(id) => Ok(Text { id }),
            Err(error) => Err(error),
        }
    }

    /// A handle to a live text cell.
    pub fn open_text(&self, id: TextId) -> (text: Result<Text, Error>)
        ensures
            text == if self@.text.live(id) {
                Ok(Text { id })
            } else {
                Err::<Text, Error>(Error::StaleText(id))
            },
    {
        if self.text.is_live(id) {
            Ok(Text { id })
        } else {
            Err(Error::StaleText(id))
        }
    }

    /// Gives a text cell back: every handle to it goes stale.
    pub fn release_text(&mut self, id: TextId) -> (released: Result<(), Error>)
        requires
            old(self)@.wf(),
        ensures
            final(self)@.wf(),
            if old(self)@.text.live(id) {
                let slot = old(self)@.text.slots[id.index as int];
                &&& released is Ok
                &&& final(self)@ == (CellsView {
                    text: (TextTableView {
                        slots: old(self)@.text.slots.update(
                            id.index as int,
                            (TextSlotView { state: 0, ..slot }),
                        ),
                        ..old(self)@.text
                    }),
                    ..old(self)@
                })
            } else {
                &&& released == Err::<(), Error>(Error::StaleText(id))
                &&& final(self)@ == old(self)@
            },
    {
        self.text.release(id)
    }

    /// True when an id names a live text cell.
    pub fn is_text_live(&self, id: TextId) -> (live: bool)
        ensures
            live == self@.text.live(id),
    {
        self.text.is_live(id)
    }

    /// Takes a free slot, stamps it with its type and its first value, and gives
    /// the handle.
    pub fn allocate<T: CellType>(&mut self, initial: T) -> (cell: Result<Orbital<T>, Error>)
        requires
            old(self)@.wf(),
        ensures
            final(self)@.wf(),
            match old(self)@.free() {
                None => {
                    &&& cell is Err
                    &&& cell->Err_0 == (Error::Full { capacity: CELL_CAPACITY })
                    &&& final(self)@ == old(self)@
                },
                Some(place) => {
                    let slot = old(self)@.slots[place].installed(T::TAG, initial.bits());
                    &&& cell is Ok
                    &&& cell->Ok_0.id == (CellId {
                        index: place as u32,
                        generation: slot.generation,
                    })
                    &&& final(self)@ == (CellsView {
                        slots: old(self)@.slots.update(place, slot),
                        hint: ((place + 1) % CELL_CAPACITY as int) as u32,
                        ..old(self)@
                    })
                },
            },
    {
        let mut steps: usize = 0;
        while steps < CELL_CAPACITY
            invariant
                steps <= CELL_CAPACITY,
                self@ == old(self)@,
                self@.wf(),
                self@.free() == next_free(self@.taken(), self@.hint as int, steps as int),
            decreases CELL_CAPACITY - steps,
        {
            let index: usize = (self.hint as usize + steps) % CELL_CAPACITY;
            assert(self@.taken()[index as int] == (self@.slots[index as int].state != 0));
            let slot: CellSlot = self.slots[index];
            if slot.state == 0 {
                let generation: u32 = next_generation_of(slot.generation);
                let value: u64 = initial.to_bits();
                self.slots.set(
                    index,
                    CellSlot { state: 1, tag: T::TAG, generation, value, changes: 0 },
                );
                self.hint = ((index + 1) % CELL_CAPACITY) as u32;
                proof {
                    assert(self@.slots =~= old(self)@.slots.update(
                        index as int,
                        slot.installed(T::TAG, initial.bits()),
                    ));
                }
                return Ok(
                    Orbital { id: CellId { index: index as u32, generation }, of: PhantomData },
                );
            }
            steps = steps + 1;
        }
        Err(Error::Full { capacity: CELL_CAPACITY })
    }

    /// A handle to a live cell of type `T`.
    pub fn open<T: CellType>(&self, id: CellId) -> (cell: Result<Orbital<T>, Error>)
        ensures
            if !self@.live(id) {
                cell is Err && cell->Err_0 == Error::Stale(id)
            } else if self@.slots[id.index as int].tag != T::TAG {
                &&& cell is Err
                &&& cell->Err_0 is TypeMismatch
                &&& cell->Err_0->TypeMismatch_id == id
                &&& cell->Err_0->expected@ == T::NAME@
                &&& cell->Err_0->found@ == named_type(self@.slots[id.index as int].tag)
            } else {
                cell is Ok && cell->Ok_0.id == id
            },
    {
        if !self.is_live(id) {
            return Err(Error::Stale(id));
        }
        let found: u8 = self.slots[id.index as usize].tag;
        if found != T::TAG {
            return Err(Error::TypeMismatch { id, expected: T::NAME, found: name_of_tag(found) });
        }
        Ok(Orbital { id, of: PhantomData })
    }

    /// Gives a slot back: every handle to this generation goes stale.
    pub fn release(&mut self, id: CellId) -> (released: Result<(), Error>)
        requires
            old(self)@.wf(),
        ensures
            final(self)@.wf(),
            if old(self)@.live(id) {
                released is Ok && final(self)@ == old(self)@.released(id)
            } else {
                released == Err::<(), Error>(Error::Stale(id)) && final(self)@ == old(self)@
            },
    {
        if !self.is_live(id) {
            return Err(Error::Stale(id));
        }
        let index: usize = id.index as usize;
        let slot: CellSlot = self.slots[index];
        self.slots.set(
            index,
            CellSlot { state: 0, changes: slot.changes.wrapping_add(1), ..slot },
        );
        Ok(())
    }

    /// True when an id names a live cell.
    pub fn is_live(&self, id: CellId) -> (live: bool)
        ensures
            live == self@.live(id),
    {
        let index: usize = id.index as usize;
        index < self.slots.len() && self.slots[index].state == 1 && self.slots[index].generation
            == id.generation
    }

    /// Clears both tables.
    pub fn reset_all(&mut self)
        requires
            old(self)@.wf(),
        ensures
            final(self)@.wf(),
            final(self)@ == (CellsView {
                slots: old(self)@.slots.map_values(|slot: CellSlot| slot.released()),
                hint: 0,
                text: (TextTableView {
                    slots: old(self)@.text.slots.map_values(
                        |slot: TextSlotView| TextSlotView { state: 0, ..slot },
                    ),
                    hint: 0,
                }),
            }),
    {
        let ghost before = self@.slots;
        let mut index: usize = 0;
        while index < self.slots.len()
            invariant
                index <= self.slots@.len(),
                self.slots@.len() == before.len(),
                self.text@ == old(self)@.text,
                forall|i: int| index <= i < before.len() ==> #[trigger] self.slots@[i] == before[i],
                forall|i: int|
                    0 <= i < index ==> #[trigger] self.slots@[i] == before[i].released(),
            decreases self.slots@.len() - index,
        {
            let slot: CellSlot = self.slots[index];
            self.slots.set(
                index,
                CellSlot { state: 0, changes: slot.changes.wrapping_add(1), ..slot },
            );
            index = index + 1;
        }
        self.hint = 0;
        self.text.reset_all();
        assert(self@.slots =~= before.map_values(|slot: CellSlot| slot.released()));
    }

    /// Reads a live slot.
    fn slot(&self, id: CellId) -> (slot: Option<CellSlot>)
        ensures
            slot == if self@.live(id) {
                Some(self@.slots[id.index as int])
            } else {
                None
            },
    {
        if self.is_live(id) {
            Some(self.slots[id.index as usize])
        } else {
            None
        }
    }

    /// Writes a live slot.
    fn write(&mut self, id: CellId, value: u64)
        requires
            old(self)@.wf(),
            old(self)@.live(id),
        ensures
            final(self)@.wf(),
            final(self)@ == old(self)@.written(id, value),
    {
        let index: usize = id.index as usize;
        let slot: CellSlot = self.slots[index];
        self.slots.set(index, CellSlot { value, changes: slot.changes.wrapping_add(1), ..slot });
    }
}

/// What a bounded add did: it takes some of what is left, or finds nothing left.
#[derive(Clone, Copy, Debug, PartialEq, Eq, Structural)]
pub enum Claim {
    /// `taken` can be less than asked for: the last caller gets the remainder.
    Took { taken: i64, after: i64 },
    /// The limit was already reached. Nothing was added, nothing is left.
    Exhausted,
}

/// What a bounded add does to a value.
pub open spec fn claim(current: i64, by: i64, limit: i64) -> Claim {
    if current >= limit {
        Claim::Exhausted
    } else if by <= limit - current {
        Claim::Took { taken: by, after: (current + by) as i64 }
    } else {
        Claim::Took { taken: (limit - current) as i64, after: limit }
    }
}

/// What a waiter does next.
#[derive(Clone, Copy, Debug, PartialEq, Eq, Structural)]
pub enum WaitStep {
    /// The cell was written: this is the count now.
    Changed(u32),
    /// Nothing was written: park until something wakes the waiter.
    Park,
    /// The wait was interrupted.
    Interrupted,
}

/// One cell, typed.
#[derive(Debug)]
pub struct Orbital<T: CellType> {
    pub id: CellId,
    pub of: PhantomData<T>,
}

impl<T: CellType> Orbital<T> {
    /// The address.
    pub fn id(&self) -> (id: CellId)
        ensures
            id == self.id,
    {
        self.id
    }

    /// The value.
    pub fn load(&self, cells: &Cells) -> (value: Result<T, Error>)
        ensures
            value == if cells@.live(self.id) {
                Ok(T::of_bits(cells@.value(self.id)))
            } else {
                Err::<T, Error>(Error::Stale(self.id))
            },
    {
        match cells.slot(self.id) {
            Some(slot) => Ok(T::from_bits(slot.value)),
            None => Err(Error::Stale(self.id)),
        }
    }

    /// Writes the value.
    pub fn store(&self, cells: &mut Cells, value: T) -> (stored: Result<(), Error>)
        requires
            old(cells)@.wf(),
        ensures
            final(cells)@.wf(),
            if old(cells)@.live(self.id) {
                stored is Ok && final(cells)@ == old(cells)@.written(self.id, value.bits())
            } else {
                stored == Err::<(), Error>(Error::Stale(self.id)) && final(cells)@ == old(cells)@
            },
    {
        match cells.slot(self.id) {
            Some(_) => {
                cells.write(self.id, value.to_bits());
                Ok(())
            },
            None => Err(Error::Stale(self.id)),
        }
    }

    /// Replaces the value, and gives what it was.
    pub fn swap(&self, cells: &mut Cells, value: T) -> (previous: Result<T, Error>)
        requires
            old(cells)@.wf(),
        ensures
            final(cells)@.wf(),
            if old(cells)@.live(self.id) {
                &&& previous == Ok::<T, Error>(T::of_bits(old(cells)@.value(self.id)))
                &&& final(cells)@ == old(cells)@.written(self.id, value.bits())
            } else {
                previous == Err::<T, Error>(Error::Stale(self.id)) && final(cells)@ == old(cells)@
            },
    {
        match cells.slot(self.id) {
            Some(slot) => {
                cells.write(self.id, value.to_bits());
                Ok(T::from_bits(slot.value))
            },
            None => Err(Error::Stale(self.id)),
        }
    }

    /// The write count.
    pub fn version(&self, cells: &Cells) -> (version: Result<u32, Error>)
        ensures
            version == if cells@.live(self.id) {
                Ok(cells@.slots[self.id.index as int].changes)
            } else {
                Err::<u32, Error>(Error::Stale(self.id))
            },
    {
        match cells.slot(self.id) {
            Some(slot) => Ok(slot.changes),
            None => Err(Error::Stale(self.id)),
        }
    }

    /// What a waiter that has seen the count `since` does next.
    pub fn wait_step(&self, cells: &Cells, since: u32, interrupted: bool) -> (step: Result<
        WaitStep,
        Error,
    >)
        ensures
            step == if interrupted {
                Ok(WaitStep::Interrupted)
            } else if !cells@.live(self.id) {
                Err::<WaitStep, Error>(Error::Stale(self.id))
            } else if cells@.slots[self.id.index as int].changes != since {
                Ok(WaitStep::Changed(cells@.slots[self.id.index as int].changes))
            } else {
                Ok(WaitStep::Park)
            },
    {
        if interrupted {
            return Ok(WaitStep::Interrupted);
        }
        match cells.slot(self.id) {
            Some(slot) => if slot.changes != since {
                Ok(WaitStep::Changed(slot.changes))
            } else {
                Ok(WaitStep::Park)
            },
            None => Err(Error::Stale(self.id)),
        }
    }

    /// Writes `new` only if the cell still holds `current`. Gives what it held:
    /// inside `Ok` where it was written, inside `Err` where it was not.
    pub fn compare_exchange(&self, cells: &mut Cells, current: T, new: T) -> (exchanged: Result<
        Result<T, T>,
        Error,
    >)
        requires
            old(cells)@.wf(),
        ensures
            final(cells)@.wf(),
            if !old(cells)@.live(self.id) {
                &&& exchanged == Err::<Result<T, T>, Error>(Error::Stale(self.id))
                &&& final(cells)@ == old(cells)@
            } else if old(cells)@.value(self.id) == current.bits() {
                &&& exchanged == Ok::<Result<T, T>, Error>(
                    Ok(T::of_bits(old(cells)@.value(self.id))),
                )
                &&& final(cells)@ == old(cells)@.written(self.id, new.bits())
            } else {
                &&& exchanged == Ok::<Result<T, T>, Error>(
                    Err(T::of_bits(old(cells)@.value(self.id))),
                )
                &&& final(cells)@ == old(cells)@
            },
    {
        match cells.slot(self.id) {
            Some(slot) => {
                if slot.value == current.to_bits() {
                    cells.write(self.id, new.to_bits());
                    Ok(Ok(T::from_bits(slot.value)))
                } else {
                    Ok(Err(T::from_bits(slot.value)))
                }
            },
            None => Err(Error::Stale(self.id)),
        }
    }

    /// Gives the cell back: every handle to it goes stale.
    pub fn release(self, cells: &mut Cells) -> (released: Result<(), Error>)
        requires
            old(cells)@.wf(),
        ensures
            final(cells)@.wf(),
            if old(cells)@.live(self.id) {
                released is Ok && final(cells)@ == old(cells)@.released(self.id)
            } else {
                released == Err::<(), Error>(Error::Stale(self.id)) && final(cells)@ == old(cells)@
            },
    {
        cells.release(self.id)
    }
}

/// Adding to a signed cell: the value after, where it stays in the range.
pub open spec fn signed_sum(cells: CellsView, id: CellId, by: int) -> Result<i64, Error> {
    if !cells.live(id) {
        Err(Error::Stale(id))
    } else {
        let sum = signed_of(cells.value(id)) + by;
        if i64::MIN <= sum <= i64::MAX {
            Ok(sum as i64)
        } else {
            Err(Error::Overflow)
        }
    }
}

impl Orbital<i64> {
    /// Adds, and gives the value after.
    pub fn fetch_add(&self, cells: &mut Cells, by: i64) -> (value: Result<i64, Error>)
        requires
            old(cells)@.wf(),
        ensures
            final(cells)@.wf(),
            value == signed_sum(old(cells)@, self.id, by as int),
            final(cells)@ == match value {
                Ok(value) => old(cells)@.written(self.id, signed_bits(value)),
                Err(_) => old(cells)@,
            },
    {
        match cells.slot(self.id) {
            Some(slot) => {
                let current: i64 = <i64 as CellType>::from_bits(slot.value);
                match current.checked_add(by) {
                    Some(sum) => {
                        cells.write(self.id, <i64 as CellType>::to_bits(sum));
                        Ok(sum)
                    },
                    None => Err(Error::Overflow),
                }
            },
            None => Err(Error::Stale(self.id)),
        }
    }

    /// Takes away, and gives the value after.
    pub fn fetch_sub(&self, cells: &mut Cells, by: i64) -> (value: Result<i64, Error>)
        requires
            old(cells)@.wf(),
        ensures
            final(cells)@.wf(),
            value == signed_sum(old(cells)@, self.id, -(by as int)),
            final(cells)@ == match value {
                Ok(value) => old(cells)@.written(self.id, signed_bits(value)),
                Err(_) => old(cells)@,
            },
    {
        match cells.slot(self.id) {
            Some(slot) => {
                let current: i64 = <i64 as CellType>::from_bits(slot.value);
                match current.checked_sub(by) {
                    Some(difference) => {
                        cells.write(self.id, <i64 as CellType>::to_bits(difference));
                        Ok(difference)
                    },
                    None => Err(Error::Overflow),
                }
            },
            None => Err(Error::Stale(self.id)),
        }
    }

    /// Adds up to `by` while the value stays at or under `limit`, and says what
    /// was taken.
    pub fn add_until(&self, cells: &mut Cells, by: i64, limit: i64) -> (claimed: Result<
        Claim,
        Error,
    >)
        requires
            old(cells)@.wf(),
        ensures
            final(cells)@.wf(),
            claimed == if by <= 0 {
                Err(Error::Overflow)
            } else if !old(cells)@.live(self.id) {
                Err(Error::Stale(self.id))
            } else {
                Ok::<Claim, Error>(claim(signed_of(old(cells)@.value(self.id)), by, limit))
            },
            final(cells)@ == match claimed {
                Ok(Claim::Took { taken, after }) => old(cells)@.written(
                    self.id,
                    signed_bits(after),
                ),
                _ => old(cells)@,
            },
    {
        if by <= 0 {
            return Err(Error::Overflow);
        }
        match cells.slot(self.id) {
            Some(slot) => {
                let current: i64 = <i64 as CellType>::from_bits(slot.value);
                if current >= limit {
                    return Ok(Claim::Exhausted);
                }
                let taken: i64 = match limit.checked_sub(current) {
                    Some(left) => if by <= left {
                        by
                    } else {
                        left
                    },
                    None => by,
                };
                let after: i64 = current + taken;
                cells.write(self.id, <i64 as CellType>::to_bits(after));
                Ok(Claim::Took { taken, after })
            },
            None => Err(Error::Stale(self.id)),
        }
    }
}

/// Adding to an unsigned cell: the value after, where it stays in the range.
pub open spec fn unsigned_sum(cells: CellsView, id: CellId, by: int) -> Result<u64, Error> {
    if !cells.live(id) {
        Err(Error::Stale(id))
    } else if 0 <= cells.value(id) + by <= u64::MAX {
        Ok((cells.value(id) + by) as u64)
    } else {
        Err(Error::Overflow)
    }
}

impl Orbital<u64> {
    /// Adds, and gives the value after.
    pub fn fetch_add(&self, cells: &mut Cells, by: u64) -> (value: Result<u64, Error>)
        requires
            old(cells)@.wf(),
        ensures
            final(cells)@.wf(),
            value == unsigned_sum(old(cells)@, self.id, by as int),
            final(cells)@ == match value {
                Ok(value) => old(cells)@.written(self.id, value),
                Err(_) => old(cells)@,
            },
    {
        match cells.slot(self.id) {
            Some(slot) => match slot.value.checked_add(by) {
                Some(sum) => {
                    cells.write(self.id, sum);
                    Ok(sum)
                },
                None => Err(Error::Overflow),
            },
            None => Err(Error::Stale(self.id)),
        }
    }

    /// Takes away, and gives the value after.
    pub fn fetch_sub(&self, cells: &mut Cells, by: u64) -> (value: Result<u64, Error>)
        requires
            old(cells)@.wf(),
        ensures
            final(cells)@.wf(),
            value == unsigned_sum(old(cells)@, self.id, -by),
            final(cells)@ == match value {
                Ok(value) => old(cells)@.written(self.id, value),
                Err(_) => old(cells)@,
            },
    {
        match cells.slot(self.id) {
            Some(slot) => match slot.value.checked_sub(by) {
                Some(rest) => {
                    cells.write(self.id, rest);
                    Ok(rest)
                },
                None => Err(Error::Overflow),
            },
            None => Err(Error::Stale(self.id)),
        }
    }
}

impl Orbital<bool> {
    /// Sets the flag, and says whether it was set.
    pub fn set(&self, cells: &mut Cells) -> (previous: Result<bool, Error>)
        requires
            old(cells)@.wf(),
        ensures
            final(cells)@.wf(),
            if old(cells)@.live(self.id) {
                &&& previous == Ok::<bool, Error>(old(cells)@.value(self.id) != 0)
                &&& final(cells)@ == old(cells)@.written(self.id, 1)
            } else {
                &&& previous == Err::<bool, Error>(Error::Stale(self.id))
                &&& final(cells)@ == old(cells)@
            },
    {
        self.swap(cells, true)
    }

    /// Clears the flag, and says whether it was set.
    pub fn clear(&self, cells: &mut Cells) -> (previous: Result<bool, Error>)
        requires
            old(cells)@.wf(),
        ensures
            final(cells)@.wf(),
            if old(cells)@.live(self.id) {
                &&& previous == Ok::<bool, Error>(old(cells)@.value(self.id) != 0)
                &&& final(cells)@ == old(cells)@.written(self.id, 0)
            } else {
                &&& previous == Err::<bool, Error>(Error::Stale(self.id))
                &&& final(cells)@ == old(cells)@
            },
    {
        self.swap(cells, false)
    }
}

/// The header of a cell table in shared memory.
pub fn cell_header() -> (header: StateHeader)
    ensures
        header == (StateHeader {
            magic: 0x4345_4C4C,
            version: 2,
            header_size: 64,
            capacity: CELL_CAPACITY as u32,
            slot_size: 64,
        }),
{
    StateHeader {
        magic: 0x4345_4C4C,
        version: 2,
        header_size: 64,
        capacity: CELL_CAPACITY as u32,
        slot_size: 64,
    }
}

} // verus!
