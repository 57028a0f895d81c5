//! What holds of the cache over several calls.
use vstd::prelude::*;

use crate::cache::layout::{
    layout_fault, lemma_records, CacheLayout, MutationRecord, PayloadRecord,
};
use crate::cache::local::{lemma_fresh, CacheReadView, LocalView};
use crate::cache::protocol::{
    deadline_field, decoded, law_put_round_trip, mutation_record, CacheRevision, MutationView,
    PayloadRef, FRAME_KIND_PAYLOAD, FRAME_KIND_PUT,
};
use crate::cache::resident::{has_key, lemma_pushed, pushed, slot_of, EntryView, SlotView};
use crate::cache::transport::{
    chunk_at, chunks_at, deadline, join, law_split_then_join, lemma_split_fits, next_payload,
    next_revision, put_fault, ready, recorded, split, stored, value_at, value_limit, versioned,
};
use crate::fleet::{lemma_ring_fits, FleetView};
use crate::id::{lemma_pack, lemma_pack_onward, NetId64};
use crate::ring::laws::law_batch_then_read;

verus! {

/// A slot that is not newer than the key's own changes nothing: the last write
/// wins, in whatever order mutations arrive.
pub proof fn law_newer_slot_wins(local: LocalView, key: Seq<u8>, slot: SlotView)
    requires
        has_key(local.items, key),
        !slot_of(local.items, key).revision().before(slot.revision()),
    ensures
        local.put(key, slot) == local,
        !local.takes(key, slot),
{
}

/// Two mutations of one key leave the same slot in whichever order they are
/// applied, when there is room for the key: that of the later revision.
pub proof fn law_order_does_not_matter(
    local: LocalView,
    key: Seq<u8>,
    older: SlotView,
    newer: SlotView,
)
    requires
        local.wf(),
        older.revision().before(newer.revision()),
        has_key(local.items, key) || local.items.len() < local.limit,
        has_key(local.items, key) ==> slot_of(local.items, key).revision().before(older.revision()),
    ensures
        slot_of(local.put(key, older).put(key, newer).items, key) == newer,
        slot_of(local.put(key, newer).put(key, older).items, key) == newer,
{
    lemma_pushed(local.items, local.limit, key, older, key);
    lemma_pushed(local.items, local.limit, key, newer, key);
    let after = local.put(key, older);
    lemma_pushed(after.items, after.limit, key, newer, key);
}

/// The floor never falls: not by a put, and not when it is raised.
pub proof fn law_floor_never_falls(local: LocalView, key: Seq<u8>, slot: SlotView, sequence: u64)
    requires
        local.floor is Some,
    ensures
        local.raise(sequence).floor is Some,
        local.raise(sequence).floor->0 >= local.floor->0,
        local.raise(sequence).floor->0 >= sequence,
        local.put(key, slot).floor is Some,
        local.put(key, slot).floor->0 >= local.floor->0,
{
}

/// What an evicted slot knew is not forgotten: no mutation at or below its
/// sequence is taken any more, so an older write cannot come back.
pub proof fn law_evicted_is_not_revived(
    local: LocalView,
    key: Seq<u8>,
    slot: SlotView,
    late: CacheRevision,
)
    requires
        local.wf(),
        local.items.len() == local.limit,
        !has_key(local.items, key),
        late.sequence <= local.items.last().1.revision().sequence,
    ensures
        !local.put(key, slot).accepts(late),
{
}

/// After a loss nothing is served, whatever is applied before the store is
/// recovered.
pub proof fn law_nothing_served_after_loss(
    local: LocalView,
    mutation: MutationView,
    value: Option<Seq<u8>>,
    key: Seq<u8>,
    now_ms: u64,
)
    ensures
        local.lost().read(key, now_ms) == CacheReadView::ResyncRequired,
        local.lost().apply(mutation, value).read(key, now_ms) == CacheReadView::ResyncRequired,
{
}

/// A value that was taken is read until its deadline, and missed from then on.
pub proof fn law_put_then_read(local: LocalView, key: Seq<u8>, entry: EntryView, now_ms: u64)
    requires
        local.wf(),
        local.coherent,
        local.takes(key, SlotView::Present(entry)),
    ensures
        local.put(key, SlotView::Present(entry)).read(key, now_ms) == (if entry.expired(now_ms) {
            CacheReadView::Miss
        } else {
            CacheReadView::Hit(entry)
        }),
{
    let slot = SlotView::Present(entry);
    lemma_pushed(local.items, local.limit, key, slot, key);
    let items = pushed(local.items, local.limit, key, slot);
    if !has_key(local.items, key) && local.items.len() == local.limit {
        let after = LocalView { items, ..local };
        lemma_fresh(
            items,
            after.raised_floor(local.items.last().1.revision().sequence),
            key,
        );
    }
}

/// A deletion that was taken makes the key miss.
pub proof fn law_delete_then_miss(
    local: LocalView,
    key: Seq<u8>,
    revision: CacheRevision,
    now_ms: u64,
)
    requires
        local.wf(),
        local.coherent,
        local.takes(key, SlotView::Missing { revision }),
    ensures
        local.put(key, SlotView::Missing { revision }).read(key, now_ms) == CacheReadView::Miss,
{
    let slot = SlotView::Missing { revision };
    lemma_pushed(local.items, local.limit, key, slot, key);
    let items = pushed(local.items, local.limit, key, slot);
    if !has_key(local.items, key) && local.items.len() == local.limit {
        let after = LocalView { items, ..local };
        lemma_fresh(
            items,
            after.raised_floor(local.items.last().1.revision().sequence),
            key,
        );
    }
}

/// After a reset of a sequence every key that it covers misses.
pub proof fn law_reset_then_miss(local: LocalView, sequence: u64, key: Seq<u8>, now_ms: u64)
    requires
        local.wf(),
        local.coherent,
        has_key(local.items, key) ==> slot_of(local.items, key).revision().sequence <= sequence,
    ensures
        local.raise(sequence).read(key, now_ms) == CacheReadView::Miss,
{
    lemma_fresh(local.items, local.raised_floor(sequence), key);
}

proof fn lemma_chunk_stored<L: CacheLayout>(view: FleetView, value: Seq<u8>, i: int)
    requires
        layout_fault::<L>() is None,
        view.wf(),
        ready::<L>(view),
        value.len() <= value_limit::<L>(),
        view.own_lane::<PayloadRecord<L>>().head + L::PAYLOAD_RING_CAPACITY <= u64::MAX,
        0 <= i < split(value, L::PAYLOAD_RING_PAYLOAD_CAPACITY as int).len(),
    ensures
        chunk_at(
            stored::<L>(view, value),
            next_payload::<L>(view, value),
            L::PAYLOAD_RING_KIND,
            i,
        ) == Some(split(value, L::PAYLOAD_RING_PAYLOAD_CAPACITY as int)[i]),
{
    let size = L::PAYLOAD_RING_PAYLOAD_CAPACITY as int;
    let chunks = split(value, size);
    let kind = L::PAYLOAD_RING_KIND;
    let payload = next_payload::<L>(view, value);
    lemma_records::<L>();
    lemma_split_fits(value, size, L::PAYLOAD_RING_CAPACITY as int);
    lemma_ring_fits::<PayloadRecord<L>>(view);
    let middle = versioned::<PayloadRecord<L>>(view);
    let ring = middle.ring::<PayloadRecord<L>>();
    assert(ring == crate::ring::RingView {
        version: payload.payload_version,
        ..view.ring::<PayloadRecord<L>>()
    });
    assert(ring.wf());
    law_batch_then_read(
        ring,
        view.node,
        FRAME_KIND_PAYLOAD,
        payload.payload_version,
        chunks,
        i,
    );
    let head = view.own_lane::<PayloadRecord<L>>().head;
    assert(payload.first_id == NetId64::of(kind, view.node, head));
    lemma_pack(kind, view.node, head);
    lemma_pack_onward(kind, view.node, head, i);
}

proof fn lemma_chunks_joined<L: CacheLayout>(view: FleetView, value: Seq<u8>, count: nat)
    requires
        layout_fault::<L>() is None,
        view.wf(),
        ready::<L>(view),
        value.len() <= value_limit::<L>(),
        view.own_lane::<PayloadRecord<L>>().head + L::PAYLOAD_RING_CAPACITY <= u64::MAX,
        count <= split(value, L::PAYLOAD_RING_PAYLOAD_CAPACITY as int).len(),
    ensures
        chunks_at(
            stored::<L>(view, value),
            next_payload::<L>(view, value),
            L::PAYLOAD_RING_KIND,
            count,
        ) == Some(
            join(split(value, L::PAYLOAD_RING_PAYLOAD_CAPACITY as int).subrange(0, count as int)),
        ),
    decreases count,
{
    let chunks = split(value, L::PAYLOAD_RING_PAYLOAD_CAPACITY as int);
    if count > 0 {
        let i = count - 1;
        lemma_chunks_joined::<L>(view, value, i as nat);
        lemma_chunk_stored::<L>(view, value, i as int);
        let prefix = chunks.subrange(0, count as int);
        assert(prefix.drop_last() =~= chunks.subrange(0, i as int));
        assert(prefix.last() == chunks[i as int]);
    } else {
        assert(chunks.subrange(0, 0) =~= Seq::<Seq<u8>>::empty());
    }
}

/// What a put stores is what its address gives back: right after the mutation
/// was published, every member that sees the rings reads exactly the value.
pub proof fn law_put_value_is_readable<L: CacheLayout>(
    view: FleetView,
    value: Seq<u8>,
    frame_kind: u8,
    record: Seq<u8>,
)
    requires
        layout_fault::<L>() is None,
        view.wf(),
        ready::<L>(view),
        value.len() <= value_limit::<L>(),
        view.own_lane::<PayloadRecord<L>>().head + L::PAYLOAD_RING_CAPACITY <= u64::MAX,
    ensures
        value_at::<L>(
            recorded::<L>(stored::<L>(view, value), frame_kind, record),
            next_payload::<L>(view, value),
        ) == Some(value),
{
    let size = L::PAYLOAD_RING_PAYLOAD_CAPACITY as int;
    let chunks = split(value, size);
    let payload = next_payload::<L>(view, value);
    let after = stored::<L>(view, value);
    let end = recorded::<L>(after, frame_kind, record);
    lemma_records::<L>();
    lemma_split_fits(value, size, L::PAYLOAD_RING_CAPACITY as int);
    lemma_chunks_joined::<L>(view, value, chunks.len());
    assert(chunks.subrange(0, chunks.len() as int) =~= chunks);
    law_split_then_join(value, size);
    lemma_pack(
        L::PAYLOAD_RING_KIND,
        view.node,
        view.own_lane::<PayloadRecord<L>>().head,
    );
    lemma_ring_fits::<PayloadRecord<L>>(view);
    assert(end.rings[L::PAYLOAD_RING_KIND] == after.rings[L::PAYLOAD_RING_KIND]);
    lemma_same_chunks(after, end, payload, L::PAYLOAD_RING_KIND, chunks.len());
}

proof fn lemma_same_chunks(
    one: FleetView,
    other: FleetView,
    payload: PayloadRef,
    kind: u8,
    count: nat,
)
    requires
        one.rings.contains_key(kind),
        other.rings.contains_key(kind),
        one.rings[kind] == other.rings[kind],
    ensures
        chunks_at(one, payload, kind, count) == chunks_at(other, payload, kind, count),
    decreases count,
{
    if count > 0 {
        lemma_same_chunks(one, other, payload, kind, (count - 1) as nat);
    }
}

/// The frame that a put publishes is decoded by every member to the very
/// mutation that the put returned. A payload ring of kind zero is left out:
/// its ids are taken for none.
pub proof fn law_published_put_is_decoded<L: CacheLayout>(
    view: FleetView,
    store: Seq<u8>,
    key: Seq<u8>,
    value: Seq<u8>,
    now_ms: u64,
    ttl_millis: Option<u128>,
)
    requires
        layout_fault::<L>() is None,
        L::PAYLOAD_RING_KIND != 0,
        view.wf(),
        ready::<L>(view),
        view.ring::<MutationRecord<L>>().version < u64::MAX,
        put_fault::<L>(store.len(), key.len(), value.len()) is None,
    ensures
        ({
            let before = stored::<L>(view, value);
            let payload = next_payload::<L>(view, value);
            let expires_at_ms = deadline(now_ms, ttl_millis);
            let frame = versioned::<MutationRecord<L>>(before).ring::<MutationRecord<L>>().next_frame(
                view.node,
                FRAME_KIND_PUT,
                next_revision::<L>(before).sequence,
                mutation_record(store, key, deadline_field(expires_at_ms), payload),
            );
            decoded(frame) == Some(
                MutationView::Put {
                    store,
                    key,
                    revision: next_revision::<L>(before),
                    expires_at_ms,
                    payload,
                },
            )
        }),
{
    let before = stored::<L>(view, value);
    let payload = next_payload::<L>(view, value);
    let expires_at_ms = deadline(now_ms, ttl_millis);
    lemma_records::<L>();
    lemma_split_fits(
        value,
        L::PAYLOAD_RING_PAYLOAD_CAPACITY as int,
        L::PAYLOAD_RING_CAPACITY as int,
    );
    lemma_ring_fits::<PayloadRecord<L>>(view);
    lemma_pack(
        L::PAYLOAD_RING_KIND,
        view.node,
        view.own_lane::<PayloadRecord<L>>().head,
    );
    law_put_round_trip(
        next_revision::<L>(before).mutation_id,
        next_revision::<L>(before).sequence,
        store,
        key,
        expires_at_ms,
        payload,
    );
}

} // verus!
