//! What holds over any number of requests to an arena.
use vstd::prelude::*;

use crate::arena::index::{first_open, forgotten, fresh, has_generation, Slot};
use crate::arena::laws::{
    cleared_for, law_held_is_not_torn_by_put, law_held_outlives_the_index,
    law_put_gives_another_generation, lemma_cleared_for, position_for,
};
use crate::arena::{ArenaView, Entry, Error, RecordView};

verus! {

/// A request to an arena, with its answer.
pub enum Operation {
    Put { key: u128, record: RecordView, result: Result<(), Error> },
    Get { key: u128, entry: Option<Entry> },
    Release { entry: Entry },
    Forget { key: u128 },
    Reset,
}

/// A request, and the arena before it and after it.
pub struct Call {
    pub before: ArenaView,
    pub after: ArenaView,
    pub operation: Operation,
}

/// The arena with another count of readers on a slot.
pub open spec fn repinned(arena: ArenaView, i: int, pins: int) -> ArenaView {
    ArenaView {
        slots: arena.slots.update(i, (Slot { pins: pins as u32, ..arena.slots[i] })),
        ..arena
    }
}

impl Call {
    /// True when the request was answered as it is.
    pub open spec fn done(self) -> bool {
        match self.operation {
            Operation::Put { key, record, result } => self.before.is_put(
                key,
                record,
                self.after,
                result,
            ),
            Operation::Get { key, entry } => match entry {
                Some(entry) => {
                    let i = entry.slot as int;
                    &&& self.before.filed_at(i, key)
                    &&& self.before.slots[i].pins < u32::MAX
                    &&& self.after == repinned(self.before, i, self.before.slots[i].pins + 1)
                },
                None => self.after == self.before,
            },
            Operation::Release { entry } => {
                let i = entry.slot as int;
                &&& self.before.holds(entry)
                &&& self.after == repinned(self.before, i, self.before.slots[i].pins - 1)
            },
            Operation::Forget { key } => {
                &&& self.after.slots == forgotten(self.before.slots, key)
                &&& self.after.ring == self.before.ring
            },
            Operation::Reset => {
                &&& self.after.slots == self.before.slots.map_values(|slot: Slot| slot.evicted())
                &&& self.after.ring == self.before.ring
            },
        }
    }

    /// How many readers the request adds to those of a slot.
    pub open spec fn adds(self, slot: int) -> int {
        match self.operation {
            Operation::Get { entry: Some(entry), .. } => if entry.slot == slot {
                1
            } else {
                0
            },
            Operation::Release { entry } => if entry.slot == slot {
                -1
            } else {
                0
            },
            _ => 0,
        }
    }

    /// The generation of the record that the request filed.
    pub open spec fn gave(self, generation: u32) -> bool {
        &&& self.operation is Put
        &&& self.operation->Put_result is Ok
        &&& exists|i: int| #[trigger]
            self.after.filed_at(i, self.operation->Put_key) && self.after.slots[i].generation
                == generation
    }
}

/// Requests to one arena, whichever processes made them: each finds the arena that the
/// one before it left.
pub open spec fn is_history(calls: Seq<Call>) -> bool {
    &&& forall|i: int|
        0 <= i < calls.len() ==> {
            let call = #[trigger] calls[i];
            call.done() && call.before.wf() && call.after.wf()
        }
    &&& forall|i: int| 0 < i < calls.len() ==> (#[trigger] calls[i]).before == calls[i - 1].after
}

/// How many readers the first requests add to those of a slot.
pub open spec fn added(calls: Seq<Call>, slot: int, count: int) -> int
    decreases count,
{
    if count <= 0 {
        0
    } else {
        added(calls, slot, count - 1) + calls[count - 1].adds(slot)
    }
}

/// True when not all readers of a slot let go of it within these requests: those that
/// held it first, and those that came, are always more than those that went.
pub open spec fn kept(calls: Seq<Call>, slot: int) -> bool {
    forall|count: int|
        0 <= count <= calls.len() ==> calls[0].before.slots[slot].pins + #[trigger] added(
            calls,
            slot,
            count,
        ) > 0
}

proof fn lemma_held_over_a_call(call: Call, entry: Entry)
    requires
        call.done(),
        call.before.wf(),
        call.after.wf(),
        call.before.holds(entry),
        call.before.slots[entry.slot as int].pins + call.adds(entry.slot as int) > 0,
    ensures
        call.after.holds(entry),
        call.after.record_at(entry.slot as int) == call.before.record_at(entry.slot as int),
        call.after.slots[entry.slot as int].pins == call.before.slots[entry.slot as int].pins
            + call.adds(entry.slot as int),
{
    match call.operation {
        Operation::Put { key, record, result } => {
            law_held_is_not_torn_by_put(call.before, key, record, call.after, result, entry);
        },
        Operation::Forget { key } => {
            assert(call.after.slots == forgotten(call.before.slots, key));
            law_held_outlives_the_index(call.before, call.after, entry);
        },
        Operation::Reset => {
            law_held_outlives_the_index(call.before, call.after, entry);
        },
        _ => {},
    }
}

/// A record that a reader holds is never torn: over any number of requests, as long as
/// not all its readers let go of it, it keeps its slot, its bytes and its validators.
pub proof fn law_held_record_is_never_torn(calls: Seq<Call>, entry: Entry, count: int)
    requires
        is_history(calls),
        0 < calls.len(),
        0 < count <= calls.len(),
        calls[0].before.holds(entry),
        kept(calls, entry.slot as int),
    ensures
        calls[count - 1].after.holds(entry),
        calls[count - 1].after.record_at(entry.slot as int) == calls[0].before.record_at(
            entry.slot as int,
        ),
        calls[count - 1].after.slots[entry.slot as int].pins
            == calls[0].before.slots[entry.slot as int].pins + added(
            calls,
            entry.slot as int,
            count,
        ),
    decreases count,
{
    let slot = entry.slot as int;
    let call = calls[count - 1];
    assert(added(calls, slot, 0) == 0);
    if count > 1 {
        law_held_record_is_never_torn(calls, entry, count - 1);
        assert(call.before == calls[count - 2].after);
    }
    assert(calls[0].before.slots[slot].pins + added(calls, slot, count) > 0);
    lemma_held_over_a_call(call, entry);
}

/// Whatever is filed while a reader holds a record, under the same key or another, with
/// a reset in between or not, has another generation than the record.
pub proof fn law_filed_later_has_another_generation(
    calls: Seq<Call>,
    entry: Entry,
    i: int,
    generation: u32,
)
    requires
        is_history(calls),
        0 <= i < calls.len(),
        calls[0].before.holds(entry),
        kept(calls, entry.slot as int),
        calls[i].gave(generation),
    ensures
        generation != entry.generation,
{
    let call = calls[i];
    if i > 0 {
        law_held_record_is_never_torn(calls, entry, i);
        assert(call.before == calls[i - 1].after);
    }
    let key = call.operation->Put_key;
    let j = choose|j: int| #[trigger]
        call.after.filed_at(j, key) && call.after.slots[j].generation == generation;
    law_put_gives_another_generation(
        call.before,
        key,
        call.operation->Put_record,
        call.after,
        entry.slot as int,
        j,
    );
}

/// True when a slot has this generation or a higher one.
spec fn reaches(slots: Seq<Slot>, generation: u32) -> bool {
    exists|i: int| 0 <= i < slots.len() && (#[trigger] slots[i]).generation >= generation
}

proof fn lemma_reaches_over_a_call(call: Call, generation: u32)
    requires
        call.done(),
        call.before.wf(),
        call.after.wf(),
        !has_generation(call.before.slots, u32::MAX as int),
        reaches(call.before.slots, generation),
    ensures
        reaches(call.after.slots, generation),
{
    let before = call.before.slots;
    let after = call.after.slots;
    let i = choose|i: int| 0 <= i < before.len() && (#[trigger] before[i]).generation >= generation;
    match call.operation {
        Operation::Put { key, record, result } => {
            if record.bytes().len() <= crate::arena::ARENA_RECORD_MAX {
                lemma_cleared_for(call.before, key, record);
                let cleared = cleared_for(call.before, key, record);
                assert(cleared[i].generation == before[i].generation);
                if result is Ok {
                    let position = position_for(call.before, key, record);
                    let (place, given) = choose|place: int, given: u32| #[trigger]
                        first_open(cleared, key, place) && #[trigger] fresh(before, given) && after
                            == cleared.update(
                            place,
                            ArenaView::installed(given, key, position, record),
                        );
                    assert(after[place].generation > before[i].generation);
                } else {
                    assert(after[i].generation >= generation);
                }
            } else {
                assert(after[i].generation >= generation);
            }
        },
        _ => {
            assert(after[i].generation == before[i].generation);
        },
    }
}

proof fn lemma_reaches(calls: Seq<Call>, i: int, j: int, generation: u32)
    requires
        is_history(calls),
        0 <= i < j < calls.len(),
        calls[i].gave(generation),
        forall|k: int|
            i <= k < j ==> !has_generation((#[trigger] calls[k]).before.slots, u32::MAX as int),
    ensures
        reaches(calls[j].before.slots, generation),
    decreases j,
{
    assert(calls[j].before == calls[j - 1].after);
    if i < j - 1 {
        lemma_reaches(calls, i, j - 1, generation);
        lemma_reaches_over_a_call(calls[j - 1], generation);
    } else {
        let call = calls[i];
        let k = choose|k: int| #[trigger]
            call.after.filed_at(k, call.operation->Put_key) && call.after.slots[k].generation
                == generation;
        assert(call.after.slots[k].generation >= generation);
    }
}

/// Generations grow from put to put, whatever the keys and whatever comes in between,
/// until the highest there is was given.
pub proof fn law_generations_grow(
    calls: Seq<Call>,
    i: int,
    j: int,
    earlier: u32,
    later: u32,
)
    requires
        is_history(calls),
        0 <= i < j < calls.len(),
        calls[i].gave(earlier),
        calls[j].gave(later),
        forall|k: int|
            i <= k <= j ==> !has_generation((#[trigger] calls[k]).before.slots, u32::MAX as int),
    ensures
        earlier < later,
{
    lemma_reaches(calls, i, j, earlier);
    let call = calls[j];
    let key = call.operation->Put_key;
    let high = choose|k: int|
        0 <= k < call.before.slots.len() && (#[trigger] call.before.slots[k]).generation >= earlier;
    let place = choose|k: int| #[trigger]
        call.after.filed_at(k, key) && call.after.slots[k].generation == later;
    law_put_gives_another_generation(
        call.before,
        key,
        call.operation->Put_record,
        call.after,
        high,
        place,
    );
}

} // verus!
