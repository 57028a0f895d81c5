//! What a user of the cache may rely on: which value a key has, from when and until when.
use vstd::arithmetic::power2::is_pow2;
use vstd::prelude::*;

use crate::cache::layout::{layout_fault, CacheLayout};
use crate::cache::local::{
    fresh, highest, lemma_fresh, present, CacheReadView, LocalView, OutcomeView,
};
use crate::cache::protocol::{
    key_fault, store_fault, CacheRevision, MutationView, PayloadRef,
};
use crate::cache::resident::{
    has_key, lemma_pushed, place_of, pushed, slot_of, EntryView, Item, SlotView,
};
use crate::cache::transport::{deadline, put_fault, split};
use crate::cache::{with_local, CacheView, Error};
use crate::ring::RingTopology;

verus! {

/// The deadline of a value is the time of the put and its whole time to live, in
/// milliseconds. No time at all counts as one millisecond, and a deadline that no clock
/// reaches is the last one there is. Without a time to live there is no deadline.
pub proof fn law_deadline_is_now_and_the_time_to_live(now_ms: u64, millis: u128)
    ensures
        deadline(now_ms, None) is None,
        1 <= millis && now_ms + millis <= u64::MAX ==> deadline(now_ms, Some(millis)) == Some(
            (now_ms + millis) as u64,
        ),
        now_ms + millis > u64::MAX ==> deadline(now_ms, Some(millis)) == Some(u64::MAX),
        millis == 0 && now_ms < u64::MAX ==> deadline(now_ms, Some(millis)) == Some(
            (now_ms + 1) as u64,
        ),
{
}

/// An entry is expired from its deadline on and not before; without one it never is.
pub proof fn law_entry_expires_at_its_deadline(entry: EntryView, at_ms: u64)
    ensures
        entry.expires_at_ms matches Some(end) ==> (entry.expired(at_ms) <==> at_ms >= end),
        entry.expires_at_ms is None ==> !entry.expired(at_ms),
{
}

/// True when a store takes a revision of a key: nothing that it knows is as new.
pub open spec fn is_news(local: LocalView, key: Seq<u8>, revision: CacheRevision) -> bool {
    &&& local.floor matches Some(floor) ==> floor < revision.sequence
    &&& has_key(local.items, key) ==> slot_of(local.items, key).revision().sequence
        < revision.sequence
    &&& !has_key(local.items, key) && local.items.len() >= local.limit
        ==> local.items.last().1.revision().sequence < revision.sequence
}

/// True when taking a key costs no other key its slot.
pub open spec fn has_room(local: LocalView, key: Seq<u8>) -> bool {
    has_key(local.items, key) || local.items.len() < local.limit
}

proof fn lemma_news_is_taken(local: LocalView, key: Seq<u8>, slot: SlotView, other: Seq<u8>)
    requires
        local.wf(),
        is_news(local, key, slot.revision()),
    ensures
        ({
            let after = local.put(key, slot);
            &&& local.accepts(slot.revision())
            &&& local.takes(key, slot)
            &&& has_key(after.items, key)
            &&& slot_of(after.items, key) == slot
            &&& after.coherent == local.coherent
            &&& after.limit == local.limit
            &&& other != key && has_room(local, key) ==> has_key(after.items, other) == has_key(
                local.items,
                other,
            )
            &&& other != key && has_room(local, key) && has_key(local.items, other) ==> slot_of(
                after.items,
                other,
            ) == slot_of(local.items, other)
            &&& other != key && !has_room(local, key) ==> (has_key(after.items, other) <==> has_key(
                local.items,
                other,
            ) && slot_of(local.items, other).revision().sequence
                > local.items.last().1.revision().sequence)
            &&& other != key && has_key(after.items, other) ==> slot_of(after.items, other)
                == slot_of(local.items, other)
        }),
{
    let limit = local.limit;
    lemma_pushed(local.items, limit, key, slot, key);
    lemma_pushed(local.items, limit, key, slot, other);
    let items = pushed(local.items, limit, key, slot);
    if !has_room(local, key) {
        let last = local.items.len() - 1;
        let floor = local.items.last().1.revision().sequence;
        let middle = LocalView { items, ..local };
        lemma_fresh(items, middle.raised_floor(floor), key);
        lemma_fresh(items, middle.raised_floor(floor), other);
        assert(local.items[last] == local.items.last());
        if let Some(old_floor) = local.floor {
            assert(local.items[last].1.revision().sequence > old_floor);
        }
        if has_key(local.items, other) && other == local.items.last().0 {
            let place = place_of(local.items, other);
            assert(place == last) by {
                if place != last {
                    assert(local.items[place].0 != local.items[last].0);
                }
            }
        }
    }
}

/// What a put does for the key: from then on the value is read until the deadline, and
/// missed from the deadline on, while nothing else is applied. Without a time to live it
/// is read for ever.
pub proof fn law_value_is_read_until_its_deadline(
    local: LocalView,
    store: Seq<u8>,
    key: Seq<u8>,
    value: Seq<u8>,
    revision: CacheRevision,
    payload: PayloadRef,
    now_ms: u64,
    millis: u128,
    at_ms: u64,
)
    requires
        local.wf(),
        local.coherent,
        is_news(local, key, revision),
    ensures
        ({
            let mortal = MutationView::Put {
                store,
                key,
                revision,
                expires_at_ms: deadline(now_ms, Some(millis)),
                payload,
            };
            let entry = EntryView {
                value,
                revision,
                expires_at_ms: deadline(now_ms, Some(millis)),
            };
            let after = local.apply(mortal, Some(value));
            &&& local.outcome(mortal, Some(value)) == OutcomeView::Applied
            &&& 1 <= millis && now_ms + millis <= u64::MAX && at_ms < now_ms + millis
                ==> after.read(key, at_ms) == CacheReadView::Hit(entry)
            &&& 1 <= millis && at_ms >= now_ms + millis ==> after.read(key, at_ms)
                == CacheReadView::Miss
        }),
        ({
            let immortal = MutationView::Put { store, key, revision, expires_at_ms: None, payload };
            local.apply(immortal, Some(value)).read(key, at_ms) == CacheReadView::Hit(
                EntryView { value, revision, expires_at_ms: None },
            )
        }),
{
    law_deadline_is_now_and_the_time_to_live(now_ms, millis);
    let mortal = EntryView { value, revision, expires_at_ms: deadline(now_ms, Some(millis)) };
    let immortal = EntryView { value, revision, expires_at_ms: None };
    lemma_news_is_taken(local, key, SlotView::Present(mortal), key);
    lemma_news_is_taken(local, key, SlotView::Present(immortal), key);
}

/// What a put or a delete of a key does to the other keys: nothing, while there is room.
/// In a full store the key that was used least recently is given up, and with it all
/// that is no newer than what it held; the others are read as before.
pub proof fn law_other_keys_are_read_as_before(
    local: LocalView,
    key: Seq<u8>,
    slot: SlotView,
    other: Seq<u8>,
    at_ms: u64,
)
    requires
        local.wf(),
        is_news(local, key, slot.revision()),
        other != key,
    ensures
        has_room(local, key) ==> local.put(key, slot).read(other, at_ms) == local.read(
            other,
            at_ms,
        ),
        !has_room(local, key) && local.coherent && other == local.items.last().0 ==> local.put(
            key,
            slot,
        ).read(other, at_ms) == CacheReadView::Miss,
        !has_room(local, key) && has_key(local.items, other) && slot_of(
            local.items,
            other,
        ).revision().sequence > local.items.last().1.revision().sequence ==> local.put(
            key,
            slot,
        ).read(other, at_ms) == local.read(other, at_ms),
{
    lemma_news_is_taken(local, key, slot, other);
    if !has_room(local, key) && other == local.items.last().0 && has_key(local.items, other) {
        let last = local.items.len() - 1;
        let place = place_of(local.items, other);
        assert(place == last) by {
            if place != last {
                assert(local.items[place].0 != local.items[last].0);
            }
        }
    }
}

/// A delete makes its key miss from then on.
pub proof fn law_deleted_key_is_missed(
    local: LocalView,
    store: Seq<u8>,
    key: Seq<u8>,
    revision: CacheRevision,
    at_ms: u64,
)
    requires
        local.wf(),
        local.coherent,
        is_news(local, key, revision),
    ensures
        local.apply(MutationView::Delete { store, key, revision }, None).read(key, at_ms)
            == CacheReadView::Miss,
        local.outcome(MutationView::Delete { store, key, revision }, None) == OutcomeView::Applied,
{
    lemma_news_is_taken(local, key, SlotView::Missing { revision }, key);
}

/// A put whose bytes are gone makes its key miss, and says so.
pub proof fn law_put_without_its_bytes_is_missed(
    local: LocalView,
    mutation: MutationView,
    at_ms: u64,
)
    requires
        local.wf(),
        local.coherent,
        mutation matches MutationView::Put { key, revision, .. } && is_news(local, key, revision),
    ensures
        local.apply(mutation, None).read(mutation->Put_key, at_ms) == CacheReadView::Miss,
        local.outcome(mutation, None) == (OutcomeView::PayloadUnavailable {
            key: mutation->Put_key,
        }),
{
    lemma_news_is_taken(
        local,
        mutation->Put_key,
        SlotView::Missing { revision: mutation.revision() },
        mutation->Put_key,
    );
}

/// A reset makes every key miss that was written before it, leaves those that were
/// written after it, and keeps what was written before it from coming back.
pub proof fn law_reset_forgets_what_was_before_it(
    local: LocalView,
    store: Seq<u8>,
    revision: CacheRevision,
    key: Seq<u8>,
    late: CacheRevision,
    at_ms: u64,
)
    requires
        local.wf(),
        local.floor matches Some(floor) ==> floor < revision.sequence,
    ensures
        ({
            let after = local.apply(MutationView::Reset { store, revision }, None);
            let known = has_key(local.items, key);
            let sequence = slot_of(local.items, key).revision().sequence;
            &&& local.coherent && !(known && sequence > revision.sequence) ==> after.read(
                key,
                at_ms,
            ) == CacheReadView::Miss
            &&& known && sequence > revision.sequence ==> after.read(key, at_ms) == local.read(
                key,
                at_ms,
            )
            &&& after.accepts(late) <==> late.sequence > revision.sequence
        }),
        local.outcome(MutationView::Reset { store, revision }, None) == OutcomeView::Applied,
{
    lemma_fresh(local.items, revision.sequence, key);
}

/// What is no news changes nothing: a mutation at or below the floor, or one of a key
/// that has a slot that is as new.
pub proof fn law_old_news_changes_nothing(
    local: LocalView,
    mutation: MutationView,
    value: Option<Seq<u8>>,
)
    requires
        ({
            let revision = mutation.revision();
            ||| local.floor matches Some(floor) && revision.sequence <= floor
            ||| {
                &&& mutation matches MutationView::Put { key, .. } && has_key(local.items, key)
                    && slot_of(local.items, key).revision().sequence > revision.sequence
            }
            ||| {
                &&& mutation matches MutationView::Delete { key, .. } && has_key(local.items, key)
                    && slot_of(local.items, key).revision().sequence > revision.sequence
            }
        }),
    ensures
        local.apply(mutation, value) == local,
        local.outcome(mutation, value) == OutcomeView::Ignored,
{
}

/// A read gives what the store knows of the key and nothing else: the value of a key
/// that is there and not expired. A store that has lost mutations gives nothing.
pub proof fn law_read_gives_what_is_known(local: LocalView, key: Seq<u8>, at_ms: u64)
    ensures
        !local.coherent <==> local.read(key, at_ms) == CacheReadView::ResyncRequired,
        local.read(key, at_ms) matches CacheReadView::Hit(entry) ==> {
            &&& local.coherent
            &&& has_key(local.items, key)
            &&& slot_of(local.items, key) == SlotView::Present(entry)
            &&& entry.expires_at_ms matches Some(end) ==> at_ms < end
        },
        local.coherent && has_key(local.items, key) && (slot_of(
            local.items,
            key,
        ) matches SlotView::Present(entry) && (entry.expires_at_ms matches Some(end) ==> at_ms
            < end)) ==> local.read(key, at_ms) == CacheReadView::Hit(
            slot_of(local.items, key)->Present_0,
        ),
{
}

/// A read moves its key to the front of those that were used recently, and changes
/// neither what is read nor the order of the others.
pub proof fn law_read_keeps_what_is_read(
    local: LocalView,
    key: Seq<u8>,
    other: Seq<u8>,
    at_ms: u64,
)
    requires
        local.wf(),
    ensures
        local.touched(key).read(other, at_ms) == local.read(other, at_ms),
        local.touched(key).floor == local.floor,
        local.touched(key).items.len() == local.items.len(),
        local.coherent && has_key(local.items, key) ==> {
            let place = place_of(local.items, key);
            let items = local.touched(key).items;
            &&& items[0] == local.items[place]
            &&& items[0].0 == key
            &&& items.remove(0) == local.items.remove(place)
        },
        !has_key(local.items, key) ==> local.touched(key) == local,
{
    let items = local.items;
    if local.coherent && has_key(items, key) {
        let place = place_of(items, key);
        let after = local.touched(key).items;
        assert(after.remove(0) =~= items.remove(place));
        if has_key(items, other) {
            let at = place_of(items, other);
            let moved = if at == place {
                0
            } else if at < place {
                at + 1
            } else {
                at
            };
            assert(after[moved] == items[at]);
            assert(has_key(after, other));
            let found = place_of(after, other);
            let origin = if found == 0 {
                place
            } else if found <= place {
                found - 1
            } else {
                found
            };
            assert(after[found] == items[origin]);
            if origin != at {
                assert(items[origin].0 != items[at].0);
            }
        } else if has_key(after, other) {
            let found = place_of(after, other);
            let origin = if found == 0 {
                place
            } else if found <= place {
                found - 1
            } else {
                found
            };
            assert(after[found] == items[origin]);
        }
    }
}

/// The highest sequence of items is that of one of them, and none is above it.
pub proof fn law_highest_is_above_all(items: Seq<Item>, i: int)
    requires
        0 <= i < items.len(),
    ensures
        highest(items) is Some,
        items[i].1.revision().sequence <= highest(items)->0,
        exists|j: int|
            0 <= j < items.len() && (#[trigger] items[j]).1.revision().sequence == highest(
                items,
            )->0,
    decreases items.len(),
{
    let shorter = items.drop_last();
    let last = items.len() - 1;
    if shorter.len() > 0 {
        law_highest_is_above_all(
            shorter,
            if i < last {
                i
            } else {
                0
            },
        );
        let j = choose|j: int|
            0 <= j < shorter.len() && (#[trigger] shorter[j]).1.revision().sequence == highest(
                shorter,
            )->0;
        assert(items[j] == shorter[j]);
        if i < last {
            assert(shorter[i] == items[i]);
        }
    } else {
        assert(highest(shorter) is None);
    }
    assert(items[last] == items.last());
}

/// After a loss, nothing is taken that the store may have known better: a mutation is
/// accepted only above the floor and above all that the store held. What is above both
/// is accepted.
pub proof fn law_after_a_loss_only_news_is_accepted(local: LocalView, late: CacheRevision, i: int)
    ensures
        local.lost().accepts(late) && local.floor is Some ==> late.sequence > local.floor->0,
        local.lost().accepts(late) && 0 <= i < local.items.len() ==> late.sequence
            > local.items[i].1.revision().sequence,
        (local.floor matches Some(floor) ==> late.sequence > floor) && (forall|k: int|
            0 <= k < local.items.len() ==> late.sequence > (
            #[trigger] local.items[k]).1.revision().sequence) ==> local.lost().accepts(late),
        !local.lost().coherent,
        local.lost().items.len() == 0,
        local.lost().limit == local.limit,
{
    if local.items.len() > 0 {
        law_highest_is_above_all(
            local.items,
            if 0 <= i < local.items.len() {
                i
            } else {
                0
            },
        );
        let j = choose|j: int|
            0 <= j < local.items.len() && (#[trigger] local.items[j]).1.revision().sequence
                == highest(local.items)->0;
        assert(local.items[j].1.revision().sequence == highest(local.items)->0);
    } else {
        assert(highest(local.items) is None);
    }
}

/// The number of values that a store holds counts each key that has one, expired or not,
/// and no key that has none.
pub proof fn law_present_counts_values(items: Seq<Item>)
    ensures
        present(items) == items.filter(|item: Item| item.1 is Present).len(),
    decreases items.len(),
{
    reveal(Seq::filter);
    if items.len() > 0 {
        law_present_counts_values(items.drop_last());
    }
}

/// What raising the floor keeps: the items above it, in their order.
pub proof fn law_floor_keeps_what_is_above_it(items: Seq<Item>, floor: u64)
    ensures
        fresh(items, floor) == items.filter(
            |item: Item| item.1.revision().sequence > floor,
        ),
    decreases items.len(),
{
    reveal(Seq::filter);
    if items.len() > 0 {
        law_floor_keeps_what_is_above_it(items.drop_last(), floor);
    }
}

/// A change of one store leaves every other store and the cursor as they are.
pub proof fn law_stores_are_independent(
    cache: CacheView,
    place: int,
    local: LocalView,
    other: int,
)
    requires
        0 <= place < cache.stores.len(),
        0 <= other < cache.stores.len(),
    ensures
        with_local(cache, place, local).stores.len() == cache.stores.len(),
        with_local(cache, place, local).stores[place] == (cache.stores[place].0, local),
        other != place ==> with_local(cache, place, local).stores[other] == cache.stores[other],
        with_local(cache, place, local).cursor == cache.cursor,
{
}

/// Which stores, keys and values are accepted: none that is empty but a value may be,
/// as long as the record of the mutation fits the mutation ring, each length fits its
/// field, and the value fits the payload ring.
pub proof fn law_puts_are_accepted_where_they_fit<L: CacheLayout>(
    store_len: nat,
    key_len: nat,
    value_len: nat,
)
    requires
        L::PAYLOAD_RING_CAPACITY * L::PAYLOAD_RING_PAYLOAD_CAPACITY <= usize::MAX,
    ensures
        key_fault::<L>(store_len, key_len) is None <==> 1 <= store_len <= 65_535 && 1 <= key_len
            <= 65_535 && 41 + store_len + key_len <= L::MUTATION_RING_PAYLOAD_CAPACITY,
        store_fault::<L>(store_len) is None <==> 1 <= store_len <= 65_535 && 41 + store_len + 1
            <= L::MUTATION_RING_PAYLOAD_CAPACITY,
        put_fault::<L>(store_len, key_len, value_len) is None <==> key_fault::<L>(
            store_len,
            key_len,
        ) is None && value_len <= L::PAYLOAD_RING_CAPACITY * L::PAYLOAD_RING_PAYLOAD_CAPACITY,
        store_len == 0 ==> put_fault::<L>(store_len, key_len, value_len) == Some(
            Error::StoreEmpty,
        ),
        store_fault::<L>(store_len) is None && key_len == 0 ==> put_fault::<L>(
            store_len,
            key_len,
            value_len,
        ) == Some(Error::KeyEmpty),
{
}

/// Which layouts can be used.
pub proof fn law_layouts_are_accepted_where_they_work<L: CacheLayout>()
    ensures
        layout_fault::<L>() is None <==> {
            &&& L::MUTATION_RING_KIND != L::PAYLOAD_RING_KIND
            &&& L::MUTATION_RING_TOPOLOGY == RingTopology::PerNode
            &&& L::PAYLOAD_RING_TOPOLOGY == RingTopology::PerNode
            &&& L::MUTATION_RING_CAPACITY > 0 && is_pow2(L::MUTATION_RING_CAPACITY as int)
            &&& L::PAYLOAD_RING_CAPACITY > 0 && is_pow2(L::PAYLOAD_RING_CAPACITY as int)
            &&& L::PAYLOAD_RING_CAPACITY <= u32::MAX
            &&& L::MUTATION_RING_PAYLOAD_CAPACITY >= 41
            &&& L::PAYLOAD_RING_PAYLOAD_CAPACITY >= 1
        },
{
}

/// A value goes into as few frames as there can be: all but the last are full, and the
/// last is empty only where the value is.
pub proof fn law_value_is_cut_into_full_chunks(value: Seq<u8>, size: int, i: int)
    requires
        0 < size,
        0 <= i < split(value, size).len(),
    ensures
        0 <= i * size <= value.len(),
        i < split(value, size).len() - 1 ==> (i + 1) * size <= value.len() && split(
            value,
            size,
        )[i] == value.subrange(i * size, (i + 1) * size),
        i == split(value, size).len() - 1 ==> split(value, size)[i] == value.subrange(
            i * size,
            value.len() as int,
        ) && value.len() - i * size <= size && (value.len() > 0 ==> i * size < value.len()),
    decreases value.len(),
{
    if value.len() <= size {
        assert(split(value, size) == seq![value]);
        assert(i * size == 0) by (nonlinear_arith)
            requires
                i == 0,
        ;
        assert(value.subrange(0, value.len() as int) =~= value);
    } else {
        let rest = value.subrange(size, value.len() as int);
        let chunks = split(value, size);
        assert(chunks == seq![value.subrange(0, size)] + split(rest, size));
        if i > 0 {
            law_value_is_cut_into_full_chunks(rest, size, i - 1);
            assert(i * size == (i - 1) * size + size) by (nonlinear_arith);
            assert((i + 1) * size == i * size + size) by (nonlinear_arith);
            assert(chunks[i] == split(rest, size)[i - 1]);
            if i < chunks.len() - 1 {
                assert(value.subrange(i * size, (i + 1) * size) =~= rest.subrange(
                    (i - 1) * size,
                    i * size,
                ));
            } else {
                assert(value.subrange(i * size, value.len() as int) =~= rest.subrange(
                    (i - 1) * size,
                    rest.len() as int,
                ));
            }
        } else {
            assert(i * size == 0 && (i + 1) * size == size) by (nonlinear_arith)
                requires
                    i == 0,
            ;
            assert(split(rest, size).len() > 0);
        }
    }
}

/// What the outcome of a mutation tells: that it was applied exactly where the key has the
/// very slot that the mutation gives it afterwards, and that its bytes are gone only where
/// it is a put without them.
pub proof fn law_outcome_tells_what_happened(
    local: LocalView,
    mutation: MutationView,
    value: Option<Seq<u8>>,
)
    requires
        local.wf(),
    ensures
        ({
            let after = local.apply(mutation, value);
            let outcome = local.outcome(mutation, value);
            match mutation {
                MutationView::Put { key, revision, expires_at_ms, .. } => {
                    &&& outcome is Applied ==> value is Some && has_key(after.items, key)
                        && slot_of(after.items, key) == SlotView::Present(
                        EntryView { value: value->0, revision, expires_at_ms },
                    )
                    &&& outcome is PayloadUnavailable ==> value is None && has_key(
                        after.items,
                        key,
                    ) && slot_of(after.items, key) == SlotView::Missing { revision }
                    &&& is_news(local, key, revision) ==> !(outcome is Ignored)
                },
                MutationView::Delete { key, revision, .. } => {
                    &&& outcome is Applied ==> has_key(after.items, key) && slot_of(
                        after.items,
                        key,
                    ) == SlotView::Missing { revision }
                    &&& !(outcome is PayloadUnavailable)
                    &&& is_news(local, key, revision) ==> outcome is Applied
                },
                MutationView::Reset { revision, .. } => {
                    outcome is Applied <==> (local.floor matches Some(floor) ==> floor
                        < revision.sequence)
                },
            }
        }),
{
    match mutation {
        MutationView::Put { key, revision, expires_at_ms, .. } => {
            let slot = match value {
                Some(value) => SlotView::Present(EntryView { value, revision, expires_at_ms }),
                None => SlotView::Missing { revision },
            };
            lemma_taken_slot(local, key, slot);
            if is_news(local, key, revision) {
                lemma_news_is_taken(local, key, slot, key);
            }
        },
        MutationView::Delete { key, revision, .. } => {
            let slot = SlotView::Missing { revision };
            lemma_taken_slot(local, key, slot);
            if is_news(local, key, revision) {
                lemma_news_is_taken(local, key, slot, key);
            }
        },
        _ => {},
    }
}

proof fn lemma_taken_slot(local: LocalView, key: Seq<u8>, slot: SlotView)
    requires
        local.wf(),
    ensures
        local.takes(key, slot) ==> has_key(local.put(key, slot).items, key) && slot_of(
            local.put(key, slot).items,
            key,
        ) == slot,
{
    if local.takes(key, slot) {
        lemma_pushed(local.items, local.limit, key, slot, key);
        let items = pushed(local.items, local.limit, key, slot);
        if !has_room(local, key) {
            let middle = LocalView { items, ..local };
            lemma_fresh(
                items,
                middle.raised_floor(local.items.last().1.revision().sequence),
                key,
            );
        }
    }
}

} // verus!
