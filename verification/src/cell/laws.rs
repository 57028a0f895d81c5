//! What holds of every cell.
use vstd::prelude::*;

use crate::cell::ids::{CellId, TextId};
use crate::cell::place::{lemma_free_exists, lemma_next_free, next_free, next_generation};
use crate::cell::text::{TextSlotView, TextTableView};
use crate::cell::{
    claim, signed_sum, unsigned_sum, CellType, CellsView, Claim, Error, CELL_CAPACITY,
};
use crate::probe::{lemma_steps, probed, steps_to};

verus! {

/// The tables after a cell was allocated at a place.
pub open spec fn allocated(cells: CellsView, place: int, tag: u8, value: u64) -> CellsView {
    CellsView {
        slots: cells.slots.update(place, cells.slots[place].installed(tag, value)),
        hint: ((place + 1) % CELL_CAPACITY as int) as u32,
        ..cells
    }
}

/// The address of a cell that was allocated at a place.
pub open spec fn address(cells: CellsView, place: int) -> CellId {
    CellId {
        index: place as u32,
        generation: next_generation(cells.slots[place].generation),
    }
}

/// True when an address was given back, and its slot's generations were not
/// used up since.
pub open spec fn spent(cells: CellsView, id: CellId) -> bool {
    &&& id.index < cells.slots.len()
    &&& cells.slots[id.index as int].generation > id.generation || (
    cells.slots[id.index as int].generation == id.generation
        && cells.slots[id.index as int].state == 0)
}

/// A cell that was allocated holds its first value under its address.
pub proof fn law_allocate_then_load<T: CellType>(cells: CellsView, initial: T)
    requires
        cells.wf(),
        cells.free() is Some,
    ensures
        ({
            let place = cells.free()->0;
            let after = allocated(cells, place, T::TAG, initial.bits());
            let id = address(cells, place);
            &&& !cells.live(id)
            &&& after.live(id)
            &&& T::of_bits(after.value(id)) == initial
        }),
{
    lemma_next_free(cells.taken(), cells.hint as int, 0);
    initial.lemma_bits();
}

/// Allocating a cell leaves every live cell as it was.
pub proof fn law_allocate_is_local(cells: CellsView, tag: u8, value: u64, other: CellId)
    requires
        cells.wf(),
        cells.free() is Some,
        cells.live(other),
    ensures
        ({
            let after = allocated(cells, cells.free()->0, tag, value);
            after.live(other) && after.value(other) == cells.value(other)
        }),
{
    lemma_next_free(cells.taken(), cells.hint as int, 0);
    let place = cells.free()->0;
    assert(cells.taken()[other.index as int]);
    assert(!cells.taken()[place]);
}

/// What was written to a cell is what it holds.
pub proof fn law_store_then_load<T: CellType>(cells: CellsView, id: CellId, value: T)
    requires
        cells.live(id),
    ensures
        cells.written(id, value.bits()).live(id),
        T::of_bits(cells.written(id, value.bits()).value(id)) == value,
{
    value.lemma_bits();
}

/// Writing or giving back a cell leaves every other live cell as it was.
pub proof fn law_write_is_local(cells: CellsView, id: CellId, value: u64, other: CellId)
    requires
        cells.live(id),
        cells.live(other),
        other != id,
    ensures
        cells.written(id, value).live(other),
        cells.written(id, value).value(other) == cells.value(other),
        cells.released(id).live(other),
        cells.released(id).value(other) == cells.value(other),
{
}

/// An address that was given back is stale.
pub proof fn law_release_then_stale(cells: CellsView, id: CellId)
    requires
        cells.live(id),
    ensures
        !cells.released(id).live(id),
        spent(cells.released(id), id),
{
}

/// An address that was given back stays stale, whatever is written, given back
/// or allocated, as long as the slot has generations left.
pub proof fn law_stale_stays_stale(
    cells: CellsView,
    id: CellId,
    other: CellId,
    tag: u8,
    value: u64,
)
    requires
        cells.wf(),
        spent(cells, id),
    ensures
        !cells.live(id),
        cells.live(other) ==> spent(cells.written(other, value), id),
        cells.live(other) ==> spent(cells.released(other), id),
        cells.free() matches Some(place) ==> cells.slots[place].generation < u32::MAX ==> spent(
            allocated(cells, place, tag, value),
            id,
        ),
{
    lemma_next_free(cells.taken(), cells.hint as int, 0);
}

/// A table is full only where every slot is occupied: a slot that was given back
/// can be taken again.
pub proof fn law_released_slot_is_free(cells: CellsView, id: CellId)
    requires
        cells.wf(),
        cells.live(id),
    ensures
        cells.released(id).free() is Some,
        cells.free() is None <==> forall|i: int|
            0 <= i < cells.slots.len() ==> (#[trigger] cells.slots[i]).state != 0,
{
    let after = cells.released(id);
    lemma_free_exists(after.taken(), after.hint as int);
    assert(!after.taken()[id.index as int]);
    lemma_free_exists(cells.taken(), cells.hint as int);
    if forall|i: int| 0 <= i < cells.slots.len() ==> (#[trigger] cells.slots[i]).state != 0 {
        assert forall|i: int| 0 <= i < cells.taken().len() implies #[trigger] cells.taken()[i] by {
            assert(cells.slots[i].state != 0);
        }
    }
    if forall|i: int| 0 <= i < cells.taken().len() ==> #[trigger] cells.taken()[i] {
        assert forall|i: int| 0 <= i < cells.slots.len() implies (
        #[trigger] cells.slots[i]).state != 0 by {
            assert(cells.taken()[i]);
        }
    }
}

/// A waiter that saw the count before a write sees that it changed; a waiter on
/// a cell that was given back finds it stale.
pub proof fn law_no_write_is_missed(cells: CellsView, id: CellId, value: u64)
    requires
        cells.live(id),
    ensures
        cells.written(id, value).slots[id.index as int].changes
            != cells.slots[id.index as int].changes,
        !cells.released(id).live(id),
{
}

/// A bounded add never passes its limit, takes something while anything is
/// left, and takes all that is left rather than nothing.
pub proof fn law_claim_keeps_the_limit(current: i64, by: i64, limit: i64)
    requires
        by > 0,
    ensures
        claim(current, by, limit) is Exhausted <==> current >= limit,
        claim(current, by, limit) matches Claim::Took { taken, after } ==> {
            &&& 0 < taken <= by
            &&& after == current + taken
            &&& after <= limit
            &&& taken < by ==> after == limit
        },
{
}

/// The value of a cell after claims of these sizes.
pub open spec fn after_claims(start: i64, sizes: Seq<i64>, limit: i64) -> i64
    decreases sizes.len(),
{
    if sizes.len() == 0 {
        start
    } else {
        let before = after_claims(start, sizes.drop_last(), limit);
        match claim(before, sizes.last(), limit) {
            Claim::Took { taken, after } => after,
            Claim::Exhausted => before,
        }
    }
}

/// What claims of these sizes took together.
pub open spec fn total_taken(start: i64, sizes: Seq<i64>, limit: i64) -> int
    decreases sizes.len(),
{
    if sizes.len() == 0 {
        0
    } else {
        let before = after_claims(start, sizes.drop_last(), limit);
        total_taken(start, sizes.drop_last(), limit) + match claim(before, sizes.last(), limit) {
            Claim::Took { taken, after } => taken as int,
            Claim::Exhausted => 0,
        }
    }
}

/// However many callers divide a limit, and whatever they ask for, their shares
/// are what the cell gained, and the cell never passes the limit.
pub proof fn law_claims_divide_the_limit(start: i64, sizes: Seq<i64>, limit: i64)
    requires
        start <= limit,
        forall|i: int| 0 <= i < sizes.len() ==> #[trigger] sizes[i] > 0,
    ensures
        total_taken(start, sizes, limit) == after_claims(start, sizes, limit) - start,
        start <= after_claims(start, sizes, limit) <= limit,
    decreases sizes.len(),
{
    if sizes.len() > 0 {
        let shorter = sizes.drop_last();
        assert forall|i: int| 0 <= i < shorter.len() implies #[trigger] shorter[i] > 0 by {
            assert(sizes[i] > 0);
        }
        law_claims_divide_the_limit(start, shorter, limit);
        assert(sizes[sizes.len() - 1] > 0);
    }
}

/// A text cell that was given back is stale, and stays so when its slot is taken
/// again.
pub proof fn law_released_text_is_stale(table: TextTableView, id: TextId, text: Seq<u8>)
    requires
        table.live(id),
    ensures
        ({
            let slot = table.slots[id.index as int];
            let released = TextSlotView { state: 0, ..slot };
            let after = TextTableView {
                slots: table.slots.update(id.index as int, released),
                ..table
            };
            let again = TextTableView {
                slots: after.slots.update(id.index as int, released.installed(text)),
                ..after
            };
            !after.live(id) && !again.live(id)
        }),
{
}

/// A copy that a reader takes while a text is written is not whole: the version
/// that the reader saw before is odd, or is not the one it sees after.
pub proof fn law_torn_copy_is_not_whole(
    slot: TextSlotView,
    from: int,
    text: Seq<u8>,
    before: u32,
    after: u32,
)
    requires
        slot.settled(),
        before == slot.version || before == slot.version.wrapping_add(1),
        after == slot.version.wrapping_add(1) || after == slot.written(from, text).version,
    ensures
        !(before % 2 == 0 && after == before),
{
}

/// Adding to a signed cell gives the exact sum and leaves it in the cell; a sum outside of
/// the signed 64-bit range is refused, and so is a cell that is gone.
pub proof fn law_signed_sum_is_exact(cells: CellsView, id: CellId, by: int)
    ensures
        ({
            let current = <i64 as CellType>::of_bits(cells.value(id));
            match signed_sum(cells, id, by) {
                Ok(sum) => {
                    &&& cells.live(id)
                    &&& sum == current + by
                    &&& cells.written(id, sum.bits()).live(id)
                    &&& <i64 as CellType>::of_bits(cells.written(id, sum.bits()).value(id)) == sum
                },
                Err(error) => {
                    ||| error == Error::Stale(id) && !cells.live(id)
                    ||| error == Error::Overflow && cells.live(id) && !(-0x8000_0000_0000_0000
                        <= current + by <= 0x7FFF_FFFF_FFFF_FFFF)
                },
            }
        }),
{
    if signed_sum(cells, id, by) is Ok {
        (signed_sum(cells, id, by)->Ok_0).lemma_bits();
    }
}

/// Adding to an unsigned cell gives the exact sum and leaves it in the cell; a sum outside
/// of the unsigned 64-bit range is refused, and so is a cell that is gone.
pub proof fn law_unsigned_sum_is_exact(cells: CellsView, id: CellId, by: int)
    ensures
        match unsigned_sum(cells, id, by) {
            Ok(sum) => {
                &&& cells.live(id)
                &&& sum == <u64 as CellType>::of_bits(cells.value(id)) + by
                &&& <u64 as CellType>::of_bits(cells.written(id, sum).value(id)) == sum
            },
            Err(error) => {
                ||| error == Error::Stale(id) && !cells.live(id)
                ||| error == Error::Overflow && cells.live(id) && !(0 <= cells.value(id) + by
                    <= 0xFFFF_FFFF_FFFF_FFFF)
            },
        },
{
}

/// What was added can be taken away again: the value is the one before.
pub proof fn law_subtraction_undoes_addition(cells: CellsView, id: CellId, by: int)
    requires
        signed_sum(cells, id, by) is Ok,
    ensures
        signed_sum(cells.written(id, (signed_sum(cells, id, by)->Ok_0).bits()), id, -by) == Ok::<
            i64,
            Error,
        >(<i64 as CellType>::of_bits(cells.value(id))),
{
    (signed_sum(cells, id, by)->Ok_0).lemma_bits();
}

/// The bits of a number are the number, in two's complement.
pub proof fn law_bits_are_twos_complement(value: i64)
    ensures
        value >= 0 ==> value.bits() == value,
        value < 0 ==> value.bits() == value + 0x1_0000_0000_0000_0000,
        true.bits() == 1 && false.bits() == 0,
{
}

/// A write changes the value and counts once; the address, the type and everything else
/// stay.
pub proof fn law_write_changes_the_value_alone(cells: CellsView, id: CellId, value: u64, i: int)
    requires
        cells.live(id),
        0 <= i < cells.slots.len(),
    ensures
        ({
            let before = cells.slots[i];
            let after = cells.written(id, value).slots[i];
            &&& i == id.index ==> after.value == value
            &&& i == id.index && before.changes < u32::MAX ==> after.changes == before.changes + 1
            &&& i == id.index && before.changes == u32::MAX ==> after.changes == 0
            &&& i != id.index ==> after == before
            &&& after.state == before.state
            &&& after.tag == before.tag
            &&& after.generation == before.generation
            &&& cells.written(id, value).hint == cells.hint
            &&& cells.written(id, value).text == cells.text
            &&& cells.written(id, value).slots.len() == cells.slots.len()
        }),
{
}

/// Giving a cell back frees its slot, wakes its waiters, and changes no other slot.
pub proof fn law_release_frees_the_slot_alone(cells: CellsView, id: CellId, i: int)
    requires
        cells.live(id),
        0 <= i < cells.slots.len(),
    ensures
        ({
            let before = cells.slots[i];
            let after = cells.released(id).slots[i];
            &&& i == id.index ==> after.state == 0 && after.changes != before.changes
            &&& i != id.index ==> after == before
            &&& after.generation == before.generation
            &&& cells.released(id).text == cells.text
        }),
{
}

/// A new cell goes to the first free slot from the hint on, around the table. It has the
/// type that was asked for, was not written yet, and has a generation that is not zero
/// and that its slot did not have just before.
pub proof fn law_new_cell_takes_the_first_free_slot<T: CellType>(
    cells: CellsView,
    initial: T,
    steps: int,
)
    requires
        cells.wf(),
        cells.free() is Some,
    ensures
        ({
            let place = cells.free()->0;
            let after = allocated(cells, place, T::TAG, initial.bits());
            let way = steps_to(cells.hint as int, place, CELL_CAPACITY as int);
            &&& 0 <= place < CELL_CAPACITY
            &&& cells.slots[place].state == 0
            &&& 0 <= steps < way ==> cells.slots[(cells.hint + steps) % CELL_CAPACITY as int].state
                != 0
            &&& after.slots[place].tag == T::TAG
            &&& after.slots[place].changes == 0
            &&& after.slots[place].generation == address(cells, place).generation
            &&& address(cells, place).generation != 0
            &&& address(cells, place).generation != cells.slots[place].generation
            &&& cells.slots[place].generation < u32::MAX ==> address(cells, place).generation
                == cells.slots[place].generation + 1
            &&& after.hint == (place + 1) % CELL_CAPACITY as int
        }),
{
    lemma_next_free(cells.taken(), cells.hint as int, 0);
    lemma_before_free(cells.taken(), cells.hint as int, 0, steps);
    let place = cells.free()->0;
    assert(!cells.taken()[place]);
}

proof fn lemma_before_free(taken: Seq<bool>, start: int, from: int, steps: int)
    requires
        0 <= start < taken.len(),
        0 <= from,
        next_free(taken, start, from) is Some,
    ensures
        ({
            let place = next_free(taken, start, from)->0;
            let way = steps_to(start, place, taken.len() as int);
            &&& from <= way
            &&& from <= steps < way ==> taken[(start + steps) % taken.len() as int]
        }),
    decreases taken.len() - from,
{
    let here = (start + from) % taken.len() as int;
    vstd::arithmetic::div_mod::lemma_mod_bound(start + from, taken.len() as int);
    if taken[here] {
        lemma_before_free(taken, start, from + 1, steps);
    } else {
        lemma_steps(start, here, taken.len() as int);
        assert(probed(start, from, taken.len() as int) == here);
    }
}

/// A text is what was last stored, with what was appended since behind it. Writing keeps
/// the address, and moves the version on by a whole write.
pub proof fn law_text_is_what_was_written(slot: TextSlotView, text: Seq<u8>, more: Seq<u8>)
    requires
        slot.wf(),
        text.len() + more.len() <= 240,
    ensures
        slot.installed(text).text() == text,
        slot.written(0, text).text() == text,
        slot.written(0, text).written(text.len() as int, more).text() == text + more,
        slot.written(0, text).state == slot.state,
        slot.written(0, text).generation == slot.generation,
        slot.written(0, text).version != slot.version,
        slot.written(0, text).version % 2 == slot.version % 2,
        slot.installed(text).state == 1,
        slot.installed(text).generation != slot.generation,
        slot.installed(text).generation != 0,
        slot.written(0, text).wf(),
        slot.installed(text).wf(),
{
    assert(slot.installed(text).text() =~= text);
    assert(slot.written(0, text).text() =~= text);
    assert(slot.written(0, text).written(text.len() as int, more).text() =~= text + more);
}

} // verus!
