//! What holds of every arena.
use vstd::prelude::*;

use crate::arena::index::{
    blocked_until, first_open, forgotten, fresh, has_generation, lemma_reserved, lemma_settled,
    live_count, places, reserved, settled, Slot, SlotState, ARENA_ATTEMPTS, ARENA_BYTES, ARENA_RECORD_MAX,
};
use crate::arena::{ArenaView, Entry, Error, RecordView};
use crate::codec::overwrite;
use crate::probe::Place;

verus! {

/// A key is filed in one slot only.
pub proof fn lemma_filed_at(arena: ArenaView, i: int, key: u128)
    requires
        arena.wf(),
        arena.filed_at(i, key),
    ensures
        arena.filed(key),
        arena.record(key) == Some(arena.record_at(i)),
        arena.pins(key) == arena.slots[i].pins,
{
    let j = choose|j: int| #[trigger] arena.filed_at(j, key);
    let all = places(arena.slots);
    if i != j {
        assert(all[i] == Place::Held(key));
        assert(all[j] == Place::Held(key));
    }
}

/// The slots that filing a record leaves to choose from.
pub open spec fn cleared_for(arena: ArenaView, key: u128, record: RecordView) -> Seq<Slot> {
    reserved(
        forgotten(arena.slots, key),
        arena.cursor as int,
        record.bytes().len() as int,
        ARENA_ATTEMPTS as nat,
    ).0
}

/// The place where filing a record puts its bytes.
pub open spec fn position_for(arena: ArenaView, key: u128, record: RecordView) -> int {
    reserved(
        forgotten(arena.slots, key),
        arena.cursor as int,
        record.bytes().len() as int,
        ARENA_ATTEMPTS as nat,
    ).1->0 % ARENA_BYTES as int
}

/// Making room for a record evicts and does nothing else: no lookup finds the key
/// then, and no record that stays meets the room.
pub proof fn lemma_cleared_for(arena: ArenaView, key: u128, record: RecordView)
    requires
        arena.wf(),
        record.bytes().len() <= ARENA_RECORD_MAX,
    ensures
        cleared_for(arena, key, record).len() == arena.slots.len(),
        forall|i: int|
            0 <= i < arena.slots.len() ==> {
                let slot = #[trigger] cleared_for(arena, key, record)[i];
                &&& slot == arena.slots[i] || slot == arena.slots[i].evicted()
                &&& !slot.live(key)
            },
        reserved(
            forgotten(arena.slots, key),
            arena.cursor as int,
            record.bytes().len() as int,
            ARENA_ATTEMPTS as nat,
        ).1 is Some ==> {
            let position = position_for(arena, key, record);
            &&& 0 <= position
            &&& position + record.bytes().len() <= ARENA_BYTES
            &&& forall|i: int|
                0 <= i < arena.slots.len() ==> !(#[trigger] cleared_for(arena, key, record)[i]).meets(
                    position,
                    position + record.bytes().len(),
                )
        },
{
    let without = forgotten(arena.slots, key);
    assert forall|i: int| 0 <= i < without.len() implies (#[trigger] without[i]).wf() by {
        assert(arena.slots[i].wf());
    }
    lemma_reserved(
        without,
        arena.cursor as int,
        record.bytes().len() as int,
        ARENA_ATTEMPTS as nat,
    );
    let cleared = cleared_for(arena, key, record);
    assert forall|i: int| 0 <= i < arena.slots.len() implies {
        let slot = #[trigger] cleared[i];
        &&& slot == arena.slots[i] || slot == arena.slots[i].evicted()
        &&& !slot.live(key)
    } by {
        assert(cleared[i] == without[i] || cleared[i] == without[i].evicted());
    }
}

/// The bytes of a record that stays named are not written.
proof fn lemma_bytes_kept(
    before: ArenaView,
    after: ArenaView,
    i: int,
    position: int,
    part: Seq<u8>,
)
    requires
        before.ring.len() == ARENA_BYTES,
        after.ring == overwrite(before.ring, position, part),
        0 <= position,
        position + part.len() <= ARENA_BYTES,
        after.slots[i].wf(),
        after.slots[i].named(),
        !after.slots[i].meets(position, position + part.len()),
        after.slots[i] == before.slots[i] || after.slots[i] == before.slots[i].evicted(),
    ensures
        after.record_at(i) == before.record_at(i),
{
    let one = before.record_at(i);
    let other = after.record_at(i);
    assert(one.body =~= other.body);
    if one.encoded is Some {
        assert((one.encoded->0).0 =~= (other.encoded->0).0);
    }
}

/// A record that was filed is what the next lookup of its key finds.
pub proof fn law_put_then_get(
    before: ArenaView,
    key: u128,
    record: RecordView,
    after: ArenaView,
)
    requires
        before.wf(),
        after.wf(),
        before.is_put(key, record, after, Ok(())),
    ensures
        after.record(key) == Some(record),
{
    lemma_cleared_for(before, key, record);
    let cleared = cleared_for(before, key, record);
    let position = position_for(before, key, record);
    let (place, generation) = choose|place: int, generation: u32| #[trigger]
        first_open(cleared, key, place) && #[trigger] fresh(before.slots, generation)
            && after.slots == cleared.update(
            place,
            ArenaView::installed(generation, key, position, record),
        );
    assert(after.filed_at(place, key));
    lemma_filed_at(after, place, key);
    let found = after.record_at(place);
    let bytes = record.bytes();
    assert(found.body =~= record.body) by {
        assert forall|k: int| 0 <= k < record.body.len() implies found.body[k] == record.body[k] by {
            assert(after.ring[position + k] == bytes[k]);
        }
    }
    if record.encoded is Some {
        let encoded = (found.encoded->0).0;
        assert(encoded =~= record.encoded_bytes()) by {
            assert forall|k: int| 0 <= k < encoded.len() implies encoded[k]
                == record.encoded_bytes()[k] by {
                assert(after.ring[position + record.body.len() + k] == bytes[record.body.len()
                    + k]);
            }
        }
    }
}

/// Filing a record leaves the record of another key as it was, or evicts it.
pub proof fn law_put_keeps_or_evicts(
    before: ArenaView,
    key: u128,
    record: RecordView,
    after: ArenaView,
    result: Result<(), Error>,
    other: u128,
)
    requires
        before.wf(),
        after.wf(),
        before.is_put(key, record, after, result),
        other != key,
    ensures
        after.record(other) is None || after.record(other) == before.record(other),
{
    if record.bytes().len() <= ARENA_RECORD_MAX && after.filed(other) {
        lemma_cleared_for(before, key, record);
        let cleared = cleared_for(before, key, record);
        let i = choose|i: int| #[trigger] after.filed_at(i, other);
        lemma_filed_at(after, i, other);
        assert(after.slots[i].wf());
        assert(after.slots[i] == cleared[i]);
        assert(before.filed_at(i, other));
        lemma_filed_at(before, i, other);
        if result is Ok {
            lemma_bytes_kept(
                before,
                after,
                i,
                position_for(before, key, record),
                record.bytes(),
            );
        }
    }
}

/// A record that a reader holds keeps its bytes, whatever is filed.
pub proof fn law_held_is_not_torn_by_put(
    before: ArenaView,
    key: u128,
    record: RecordView,
    after: ArenaView,
    result: Result<(), Error>,
    entry: Entry,
)
    requires
        before.wf(),
        after.wf(),
        before.holds(entry),
        before.is_put(key, record, after, result),
    ensures
        after.holds(entry),
        after.record_at(entry.slot as int) == before.record_at(entry.slot as int),
        after.slots[entry.slot as int].pins == before.slots[entry.slot as int].pins,
{
    let i = entry.slot as int;
    if record.bytes().len() <= ARENA_RECORD_MAX {
        lemma_cleared_for(before, key, record);
        let cleared = cleared_for(before, key, record);
        assert(cleared[i] == before.slots[i] || cleared[i] == before.slots[i].evicted());
        assert(cleared[i].pins > 0);
        assert(after.slots[i] == cleared[i]);
        assert(after.slots[i].wf());
        if result is Ok {
            lemma_bytes_kept(
                before,
                after,
                i,
                position_for(before, key, record),
                record.bytes(),
            );
        }
    }
}

/// A record that a reader holds outlives being forgotten and a reset.
pub proof fn law_held_outlives_the_index(before: ArenaView, after: ArenaView, entry: Entry)
    requires
        before.wf(),
        before.holds(entry),
        after.ring == before.ring,
        after.slots == before.slots.map_values(|slot: Slot| slot.evicted()) || exists|key: u128|
            after.slots == #[trigger] forgotten(before.slots, key),
    ensures
        after.holds(entry),
        after.record_at(entry.slot as int) == before.record_at(entry.slot as int),
        after.slots[entry.slot as int].pins == before.slots[entry.slot as int].pins,
{
    let i = entry.slot as int;
    assert(after.slots[i] == before.slots[i] || after.slots[i] == before.slots[i].evicted());
}

/// A key that was forgotten is not found.
pub proof fn law_forget_then_miss(before: ArenaView, after: ArenaView, key: u128)
    requires
        after.slots == forgotten(before.slots, key),
    ensures
        after.record(key) is None,
{
    if after.filed(key) {
        let i = choose|i: int| #[trigger] after.filed_at(i, key);
        assert(after.slots[i].live(key));
    }
}

/// After a reset every lookup misses.
pub proof fn law_reset_then_miss(before: ArenaView, after: ArenaView, key: u128)
    requires
        after.slots == before.slots.map_values(|slot: Slot| slot.evicted()),
    ensures
        after.record(key) is None,
{
    if after.filed(key) {
        let i = choose|i: int| #[trigger] after.filed_at(i, key);
        assert(after.slots[i].live(key));
    }
}

/// A refused record writes nothing, and no record is filed under its key.
pub proof fn law_refused_writes_nothing(
    before: ArenaView,
    key: u128,
    record: RecordView,
    after: ArenaView,
    error: Error,
)
    requires
        before.wf(),
        before.is_put(key, record, after, Err(error)),
    ensures
        after.ring == before.ring,
        after.record(key) is None || after == before,
{
    if record.bytes().len() <= ARENA_RECORD_MAX {
        lemma_cleared_for(before, key, record);
        if after.filed(key) {
            let i = choose|i: int| #[trigger] after.filed_at(i, key);
            assert(!cleared_for(before, key, record)[i].live(key));
        }
    }
}

/// Where readers hold nothing, a record of allowed size is not refused.
pub proof fn law_unheld_arena_has_room(
    before: ArenaView,
    key: u128,
    record: RecordView,
    after: ArenaView,
    result: Result<(), Error>,
)
    requires
        before.wf(),
        before.is_put(key, record, after, result),
        record.bytes().len() <= ARENA_RECORD_MAX,
        forall|i: int| 0 <= i < before.slots.len() ==> (#[trigger] before.slots[i]).pins == 0,
    ensures
        result is Ok,
{
    let without = forgotten(before.slots, key);
    let len = record.bytes().len() as int;
    lemma_settled(before.cursor as int, len);
    let begin = settled(before.cursor as int, len);
    let position = begin % ARENA_BYTES as int;
    assert forall|i: int| 0 <= i < without.len() implies (#[trigger] without[i]).pins == 0 by {
        assert(before.slots[i].pins == 0);
    }
    lemma_unpinned(without, position, position + len);
    lemma_cleared_for(before, key, record);
    let cleared = cleared_for(before, key, record);
    assert(cleared[0] == before.slots[0] || cleared[0] == before.slots[0].evicted());
    assert(cleared[0].pins == 0);
}

/// A record is refused only where readers hold what it needs: every slot of the
/// index, or bytes of the ring where it would stand.
pub proof fn law_pinned_is_under_pins(
    before: ArenaView,
    key: u128,
    record: RecordView,
    after: ArenaView,
)
    requires
        before.wf(),
        before.is_put(key, record, after, Err(Error::Pinned)),
    ensures
        ({
            let len = record.bytes().len() as int;
            let position = settled(before.cursor as int, len) % ARENA_BYTES as int;
            ||| forall|i: int| 0 <= i < before.slots.len() ==> (#[trigger] before.slots[i]).pins > 0
            ||| exists|i: int|
                0 <= i < before.slots.len() && (#[trigger] before.slots[i]).pins > 0
                    && before.slots[i].meets(position, position + len)
        }),
{
    lemma_cleared_for(before, key, record);
    let without = forgotten(before.slots, key);
    let len = record.bytes().len() as int;
    let (cleared, begin) = reserved(without, before.cursor as int, len, ARENA_ATTEMPTS as nat);
    if begin is Some {
        assert forall|i: int| 0 <= i < before.slots.len() implies (
        #[trigger] before.slots[i]).pins > 0 by {
            assert(cleared[i].pins > 0);
            assert(cleared_for(before, key, record)[i] == before.slots[i]
                || cleared_for(before, key, record)[i] == before.slots[i].evicted());
        }
    } else {
        lemma_settled(before.cursor as int, len);
        let position = settled(before.cursor as int, len) % ARENA_BYTES as int;
        assert(blocked_until(without, position, position + len) is Some);
        let i = lemma_blocker(without, position, position + len);
        assert(without[i] == before.slots[i] || without[i] == before.slots[i].evicted());
        assert(before.slots[i].pins > 0);
    }
}

/// Where something is blocked, a reader holds a record that meets the span.
proof fn lemma_blocker(slots: Seq<Slot>, from: int, to: int) -> (i: int)
    requires
        blocked_until(slots, from, to) is Some,
    ensures
        0 <= i < slots.len(),
        slots[i].pins > 0,
        slots[i].meets(from, to),
    decreases slots.len(),
{
    if slots.last().meets(from, to) && slots.last().pins > 0 {
        slots.len() - 1
    } else {
        lemma_blocker(slots.drop_last(), from, to)
    }
}

/// A put of a key gives a generation that no slot of the index had: the record that
/// the key named before and a record that a reader holds, whatever its key, have
/// another one. It is above all of them, until the highest there is was given.
pub proof fn law_put_gives_another_generation(
    before: ArenaView,
    key: u128,
    record: RecordView,
    after: ArenaView,
    i: int,
    j: int,
)
    requires
        before.wf(),
        after.wf(),
        before.is_put(key, record, after, Ok(())),
        0 <= i < before.slots.len(),
        after.filed_at(j, key),
    ensures
        after.slots[j].generation != before.slots[i].generation,
        after.slots[j].generation > 0,
        !has_generation(before.slots, u32::MAX as int) ==> before.slots[i].generation
            < after.slots[j].generation,
{
    lemma_cleared_for(before, key, record);
    let cleared = cleared_for(before, key, record);
    let position = position_for(before, key, record);
    let (place, generation) = choose|place: int, generation: u32| #[trigger]
        first_open(cleared, key, place) && #[trigger] fresh(before.slots, generation)
            && after.slots == cleared.update(
            place,
            ArenaView::installed(generation, key, position, record),
        );
    if j != place {
        assert(!cleared[j].live(key));
    }
    if before.slots[i].generation == generation {
        assert(has_generation(before.slots, generation as int));
    }
}

proof fn lemma_unpinned(slots: Seq<Slot>, from: int, to: int)
    requires
        forall|i: int| 0 <= i < slots.len() ==> (#[trigger] slots[i]).pins == 0,
    ensures
        blocked_until(slots, from, to) is None,
    decreases slots.len(),
{
    if slots.len() > 0 {
        let shorter = slots.drop_last();
        assert forall|i: int| 0 <= i < shorter.len() implies (#[trigger] shorter[i]).pins == 0 by {
            assert(slots[i].pins == 0);
        }
        lemma_unpinned(shorter, from, to);
        assert(slots[slots.len() - 1].pins == 0);
    }
}

/// Where a record goes when no reader is in the way: to the write position or, where the
/// ring ends before the record would, to the beginning of the ring. The write position
/// moves to the record's end. No byte beside the record is written.
pub proof fn law_record_goes_to_the_write_position(
    before: ArenaView,
    key: u128,
    record: RecordView,
    after: ArenaView,
    k: int,
)
    requires
        before.wf(),
        after.wf(),
        before.is_put(key, record, after, Ok(())),
        ({
            let len = record.bytes().len() as int;
            let at = before.cursor as int % ARENA_BYTES as int;
            let position = if at + len <= ARENA_BYTES {
                at
            } else {
                0
            };
            forall|i: int|
                0 <= i < before.slots.len() && (#[trigger] before.slots[i]).pins > 0
                    ==> before.slots[i].end() <= position || before.slots[i].body_offset
                    >= position + len
        }),
        0 <= k < ARENA_BYTES,
    ensures
        ({
            let len = record.bytes().len() as int;
            let at = before.cursor as int % ARENA_BYTES as int;
            let position = if at + len <= ARENA_BYTES {
                at
            } else {
                0
            };
            &&& position <= k < position + len ==> after.ring[k] == record.bytes()[k - position]
            &&& !(position <= k < position + len) ==> after.ring[k] == before.ring[k]
            &&& at + len <= ARENA_BYTES ==> after.cursor == before.cursor + len
            &&& at + len > ARENA_BYTES ==> after.cursor == before.cursor + (ARENA_BYTES - at) + len
            &&& forall|i: int| #[trigger]
                after.filed_at(i, key) ==> after.slots[i].body_offset == position
        }),
{
    let len = record.bytes().len() as int;
    lemma_settled(before.cursor as int, len);
    let begin = settled(before.cursor as int, len);
    let position = begin % ARENA_BYTES as int;
    let without = forgotten(before.slots, key);
    lemma_unblocked_span(before.slots, key, position, position + len);
    lemma_cleared_for(before, key, record);
    let cleared = cleared_for(before, key, record);
    assert(reserved(without, before.cursor as int, len, ARENA_ATTEMPTS as nat).1 == Some(begin));
    let (place, generation) = choose|place: int, generation: u32| #[trigger]
        first_open(cleared, key, place) && #[trigger] fresh(before.slots, generation)
            && after.slots == cleared.update(
            place,
            ArenaView::installed(generation, key, position, record),
        );
    assert forall|i: int| #[trigger] after.filed_at(i, key) implies after.slots[i].body_offset
        == position by {
        if i != place {
            assert(!cleared[i].live(key));
        }
    }
}

proof fn lemma_unblocked_span(slots: Seq<Slot>, key: u128, from: int, to: int)
    requires
        forall|i: int|
            0 <= i < slots.len() && (#[trigger] slots[i]).pins > 0 ==> slots[i].end() <= from
                || slots[i].body_offset >= to,
    ensures
        blocked_until(forgotten(slots, key), from, to) is None,
{
    let without = forgotten(slots, key);
    if blocked_until(without, from, to) is Some {
        let i = lemma_blocker(without, from, to);
        assert(without[i] == slots[i] || without[i] == slots[i].evicted());
        assert(slots[i].pins > 0);
    }
}

/// Whom a put evicts when no reader is in the way and the index has a slot to spare: the
/// records that the new one is written over, and no other.
pub proof fn law_put_evicts_what_it_lands_on_alone(
    before: ArenaView,
    key: u128,
    record: RecordView,
    after: ArenaView,
    other: u128,
    i: int,
    spare: int,
)
    requires
        before.wf(),
        after.wf(),
        before.is_put(key, record, after, Ok(())),
        other != key,
        before.filed_at(i, other),
        0 <= spare < before.slots.len(),
        before.slots[spare].reusable(),
        ({
            let len = record.bytes().len() as int;
            let position = settled(before.cursor as int, len) % ARENA_BYTES as int;
            forall|j: int|
                0 <= j < before.slots.len() && (#[trigger] before.slots[j]).pins > 0
                    ==> before.slots[j].end() <= position || before.slots[j].body_offset
                    >= position + len
        }),
    ensures
        ({
            let len = record.bytes().len() as int;
            let position = settled(before.cursor as int, len) % ARENA_BYTES as int;
            let slot = before.slots[i];
            if slot.end() <= position || slot.body_offset >= position + len {
                after.record(other) == before.record(other)
            } else {
                after.record(other) is None
            }
        }),
{
    let len = record.bytes().len() as int;
    lemma_settled(before.cursor as int, len);
    let position = settled(before.cursor as int, len) % ARENA_BYTES as int;
    let without = forgotten(before.slots, key);
    lemma_unblocked_span(before.slots, key, position, position + len);
    lemma_cleared_for(before, key, record);
    let cleared = cleared_for(before, key, record);
    let (place, generation) = choose|place: int, generation: u32| #[trigger]
        first_open(cleared, key, place) && #[trigger] fresh(before.slots, generation)
            && after.slots == cleared.update(
            place,
            ArenaView::installed(generation, key, position, record),
        );
    lemma_filed_at(before, i, other);
    assert(cleared == crate::arena::index::cleared(without, position, position + len));
    assert(cleared[spare].reusable());
    assert(without[i] == before.slots[i]);
    let slot = before.slots[i];
    assert(before.slots[i].wf());
    if slot.end() <= position || slot.body_offset >= position + len {
        assert(cleared[i] == slot);
        if place == i {
            assert(!cleared[i].reusable());
        }
        assert(after.filed_at(i, other));
        lemma_filed_at(after, i, other);
        assert(after.slots[i].wf());
        lemma_bytes_kept(before, after, i, position, record.bytes());
    } else {
        assert(slot.meets(position, position + len));
        assert(slot.pins == 0);
        assert(cleared[i] == slot.evicted());
        if after.filed(other) {
            let j = choose|j: int| #[trigger] after.filed_at(j, other);
            if j != place {
                assert(cleared[j] == before.slots[j] || cleared[j] == before.slots[j].evicted());
                assert(before.filed_at(j, other));
                let all = places(before.slots);
                if i != j {
                    assert(all[i] == Place::Held(other));
                    assert(all[j] == Place::Held(other));
                }
            }
        }
    }
}

/// The number of live records counts each slot that a lookup can find, and no other.
pub proof fn law_live_records_are_counted(slots: Seq<Slot>)
    ensures
        live_count(slots) == slots.filter(|slot: Slot| slot.state == SlotState::Live).len(),
    decreases slots.len(),
{
    reveal(Seq::filter);
    if slots.len() > 0 {
        law_live_records_are_counted(slots.drop_last());
    }
}

/// A record is told as it was filed: body, encoded body with its tag, and validators. A
/// reader that takes it counts once, and one that gives it back counts no more.
pub proof fn law_record_is_told_as_it_was_filed(
    before: ArenaView,
    key: u128,
    record: RecordView,
    after: ArenaView,
    i: int,
)
    requires
        before.wf(),
        after.wf(),
        before.is_put(key, record, after, Ok(())),
        after.filed_at(i, key),
    ensures
        after.record_at(i).body == record.body,
        after.record_at(i).encoded == record.encoded,
        after.record_at(i).stamp == record.stamp,
        after.record_at(i).extra == record.extra,
        after.slots[i].pins == 0,
{
    law_put_then_get(before, key, record, after);
    lemma_filed_at(after, i, key);
    lemma_cleared_for(before, key, record);
    let cleared = cleared_for(before, key, record);
    let position = position_for(before, key, record);
    let (place, generation) = choose|place: int, generation: u32| #[trigger]
        first_open(cleared, key, place) && #[trigger] fresh(before.slots, generation)
            && after.slots == cleared.update(
            place,
            ArenaView::installed(generation, key, position, record),
        );
    if i != place {
        assert(!cleared[i].live(key));
    }
}

/// Where a record goes when a reader is in the way: right behind what readers hold there,
/// as though the write position stood behind it.
pub proof fn law_record_goes_behind_what_is_held(
    slots: Seq<Slot>,
    cursor: int,
    len: int,
    attempts: nat,
    past: int,
)
    requires
        0 <= cursor,
        0 <= len <= ARENA_RECORD_MAX,
        attempts > 0,
        blocked_until(
            slots,
            settled(cursor, len) % ARENA_BYTES as int,
            settled(cursor, len) % ARENA_BYTES as int + len,
        ) == Some(past),
    ensures
        ({
            let begin = settled(cursor, len);
            let position = begin % ARENA_BYTES as int;
            let (after, found) = reserved(slots, cursor, len, attempts);
            &&& attempts > 1 ==> reserved(
                crate::arena::index::cleared(slots, position, position + len),
                begin + (past - position),
                len,
                (attempts - 1) as nat,
            ) == (after, found)
            &&& attempts == 1 ==> found is None
            &&& exists|i: int|
                0 <= i < slots.len() && (#[trigger] slots[i]).pins > 0 && slots[i].end() == past
            &&& forall|i: int|
                0 <= i < slots.len() && (#[trigger] slots[i]).pins > 0 && slots[i].meets(
                    position,
                    position + len,
                ) ==> slots[i].end() <= past
        }),
{
    let position = settled(cursor, len) % ARENA_BYTES as int;
    lemma_blocked_is_highest(slots, position, position + len);
    let begin = settled(cursor, len);
    let next = crate::arena::index::cleared(slots, position, position + len);
    assert(reserved(slots, cursor, len, attempts) == reserved(
        next,
        begin + (past - position),
        len,
        (attempts - 1) as nat,
    ));
    assert(reserved(next, begin + (past - position), len, 0).1 is None);
}

proof fn lemma_blocked_is_highest(slots: Seq<Slot>, from: int, to: int)
    ensures
        blocked_until(slots, from, to) matches Some(past) ==> {
            &&& exists|i: int|
                0 <= i < slots.len() && (#[trigger] slots[i]).pins > 0 && slots[i].end() == past
            &&& forall|i: int|
                0 <= i < slots.len() && (#[trigger] slots[i]).pins > 0 && slots[i].meets(from, to)
                    ==> slots[i].end() <= past
        },
        blocked_until(slots, from, to) is None ==> forall|i: int|
            0 <= i < slots.len() && (#[trigger] slots[i]).pins > 0 ==> !slots[i].meets(from, to),
    decreases slots.len(),
{
    if slots.len() > 0 {
        let shorter = slots.drop_last();
        lemma_blocked_is_highest(shorter, from, to);
        let last = slots.len() - 1;
        assert(slots[last] == slots.last());
        assert forall|i: int| 0 <= i < shorter.len() implies shorter[i] == #[trigger] slots[i] by {}
        if let Some(before) = blocked_until(shorter, from, to) {
            let i = choose|i: int|
                0 <= i < shorter.len() && (#[trigger] shorter[i]).pins > 0 && shorter[i].end()
                    == before;
            assert(slots[i] == shorter[i]);
        }
    }
}

} // verus!
