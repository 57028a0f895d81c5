//! What members of a fleet learn from each other: what one puts, deletes or resets, the
//! others read, miss or forget after their next poll.
use vstd::prelude::*;

use crate::cache::laws::{law_published_put_is_decoded, law_put_value_is_readable};
use crate::cache::layout::{
    layout_fault, lemma_records, CacheLayout, MutationRecord, PayloadRecord,
};
use crate::cache::local::{CacheReadView, LocalView};
use crate::cache::promises::{
    is_news, law_deadline_is_now_and_the_time_to_live, law_deleted_key_is_missed,
    law_reset_forgets_what_was_before_it, law_value_is_read_until_its_deadline,
};
use crate::cache::protocol::{
    deadline_field, decoded, key_fault, law_delete_round_trip, law_reset_round_trip,
    mutation_record, no_payload, store_fault, CacheRevision, MutationView, PayloadRef, FRAME_KIND_DELETE,
    FRAME_KIND_PUT, FRAME_KIND_RESET,
};
use crate::cache::resident::EntryView;
use crate::cache::transport::{
    by_revision, chunk_at, chunks_at, deadline, decode_all, emptied, in_order,
    insert_by_revision, law_by_revision_sorts, next_payload, next_revision, put_fault, ready, recorded,
    stored, value_at, versioned, visible_frames, visible_loss, visible_malformed, visible_mutations,
};
use crate::cache::{
    before_dispatch, has_store, is_cache_poll, store_place, stores_wf, value_of, CachePoll,
    CacheView, DispatchView, StoreItem,
};
use crate::fleet::cursor::{lane_heads, lanes_overwritten, lanes_unavailable, LaneCursorView};
use crate::fleet::laws::{behind, law_poll_at_head_is_empty, law_publish_then_poll};
use crate::fleet::{lemma_ring_fits, FleetView};
use crate::id::{counter_of, kind_of, lemma_pack, node_of, NetId64};
use crate::ring::registry::ring_fits;
use crate::ring::FrameView;
use crate::selection::{ascending, lemma_meant, lemma_no_more_places, meant, meant_at};
use crate::typed::{declared, OrbitTyped};

verus! {

/// What the dispatch of a mutation does: it is applied to the store that it names and to
/// no other. A store that is not open is reported, once, and nothing else changes. Each
/// mutation counts once: as applied, as ignored or as one whose bytes are gone.
pub proof fn law_dispatch_touches_one_store<L: CacheLayout>(
    before: DispatchView,
    fleet: FleetView,
    mutation: MutationView,
    i: int,
)
    requires
        stores_wf(before.stores),
        0 <= i < before.stores.len(),
    ensures
        ({
            let after = before.step::<L>(fleet, mutation);
            let value = value_of::<L>(fleet, mutation);
            let local = before.stores[i].1;
            &&& after.stores.len() == before.stores.len()
            &&& after.stores[i].0 == before.stores[i].0
            &&& before.stores[i].0 != mutation.store() ==> after.stores[i] == before.stores[i]
            &&& before.stores[i].0 == mutation.store() ==> {
                &&& after.stores[i].1 == local.apply(mutation, value)
                &&& after.unknown == before.unknown
                &&& local.outcome(mutation, value) is Applied <==> after.applied == before.applied
                    + 1
                &&& local.outcome(mutation, value) is Ignored <==> after.ignored == before.ignored
                    + 1
                &&& local.outcome(mutation, value) is PayloadUnavailable
                    <==> after.unavailable.len() == before.unavailable.len() + 1
            }
            &&& !has_store(before.stores, mutation.store()) ==> {
                &&& after.stores == before.stores
                &&& after.unknown.contains(mutation.store())
                &&& before.unknown.no_duplicates() ==> after.unknown.no_duplicates()
            }
            &&& after.applied + after.ignored + after.unavailable.len() == before.applied
                + before.ignored + before.unavailable.len() + 1
        }),
{
    let name = mutation.store();
    let after = before.step::<L>(fleet, mutation);
    if has_store(before.stores, name) {
        let place = store_place(before.stores, name);
        if before.stores[i].0 == name && i != place {
            assert(before.stores[i].0 != before.stores[place].0);
        }
    } else {
        if !before.unknown.contains(name) {
            assert(after.unknown[after.unknown.len() - 1] == name);
        }
    }
}

proof fn lemma_one_mutation_is_polled<L: CacheLayout>(
    fleet: FleetView,
    frame_kind: u8,
    record: Seq<u8>,
    cache: CacheView,
    mutation: MutationView,
    after: Seq<StoreItem>,
    poll: CachePoll,
)
    requires
        layout_fault::<L>() is None,
        ring_fits(
            fleet.ring::<MutationRecord<L>>(),
            <MutationRecord<L> as OrbitTyped>::KIND,
            fleet.capacity,
        ),
        fleet.ring::<MutationRecord<L>>().spec == declared::<MutationRecord<L>>(),
        fleet.ring::<MutationRecord<L>>().serves(fleet.node),
        fleet.own_lane::<MutationRecord<L>>().head < 0x100_0000_0000,
        cache.cursor.positions == lane_heads(fleet.ring::<MutationRecord<L>>()),
        ({
            let frame = versioned::<MutationRecord<L>>(fleet).ring::<MutationRecord<L>>().next_frame(
                fleet.node,
                frame_kind,
                (fleet.ring::<MutationRecord<L>>().version + 1) as u64,
                record,
            );
            decoded(frame) == Some(mutation)
        }),
        stores_wf(cache.stores),
        has_store(cache.stores, mutation.store()),
        is_cache_poll::<L>(cache, recorded::<L>(fleet, frame_kind, record), after, poll),
    ensures
        ({
            let place = store_place(cache.stores, mutation.store());
            let local = cache.stores[place].1;
            let value = value_of::<L>(recorded::<L>(fleet, frame_kind, record), mutation);
            &&& poll.observed == 1
            &&& poll.malformed == 0
            &&& poll.loss.overwritten == 0
            &&& poll.loss.unavailable == 0
            &&& after == cache.stores.update(
                place,
                (mutation.store(), local.apply(mutation, value)),
            )
            &&& local.outcome(mutation, value) is Applied ==> poll.applied == 1
        }),
{
    lemma_records::<L>();
    let middle = versioned::<MutationRecord<L>>(fleet);
    let ring = middle.ring::<MutationRecord<L>>();
    let end = recorded::<L>(fleet, frame_kind, record);
    let frame = ring.next_frame(
        fleet.node,
        frame_kind,
        (fleet.ring::<MutationRecord<L>>().version + 1) as u64,
        record,
    );
    assert(ring.wf());
    law_publish_then_poll(ring, fleet.node, frame);
    let positions = cache.cursor.begin(end.capacity);
    assert(fleet.ring::<MutationRecord<L>>().lanes.len() > 0);
    assert(lane_heads(ring) =~= lane_heads(fleet.ring::<MutationRecord<L>>()));
    assert(positions == lane_heads(ring));
    assert(end.ring::<MutationRecord<L>>() == ring.append(ring.spec.lane_of(fleet.node), frame));
    let frames = visible_frames::<L>(end, cache.cursor);
    assert(frames == seq![frame]);
    assert(frames.drop_last() =~= Seq::<FrameView>::empty());
    assert(decode_all(frames.drop_last()) =~= Seq::<MutationView>::empty());
    assert(decode_all(frames) =~= seq![mutation]);
    let mutations = decode_all(frames);
    assert(mutations.drop_last() =~= Seq::<MutationView>::empty());
    assert(by_revision(mutations.drop_last()) =~= Seq::<MutationView>::empty());
    assert(by_revision(mutations) =~= seq![mutation]);
    let start = DispatchView {
        stores: before_dispatch(cache.stores, false),
        applied: 0,
        ignored: 0,
        unavailable: Seq::empty(),
        unknown: Seq::empty(),
    };
    let list = seq![mutation];
    assert(list.drop_last() =~= Seq::<MutationView>::empty());
    assert(start.run::<L>(end, list.drop_last()) == start);
    assert(start.run::<L>(end, list) == start.step::<L>(end, mutation));
}

/// What one member puts, every other member reads: one that was at the head of every
/// lane has the very value after its next poll, until the deadline and no longer.
pub proof fn law_put_reaches_every_member<L: CacheLayout>(
    fleet: FleetView,
    store: Seq<u8>,
    key: Seq<u8>,
    value: Seq<u8>,
    now_ms: u64,
    millis: u128,
    cache: CacheView,
    after: Seq<StoreItem>,
    poll: CachePoll,
    at_ms: u64,
)
    requires
        layout_fault::<L>() is None,
        L::PAYLOAD_RING_KIND != 0,
        fleet.wf(),
        ready::<L>(fleet),
        put_fault::<L>(store.len(), key.len(), value.len()) is None,
        fleet.ring::<MutationRecord<L>>().version < u64::MAX,
        fleet.own_lane::<MutationRecord<L>>().head < 0x100_0000_0000,
        fleet.own_lane::<PayloadRecord<L>>().head + L::PAYLOAD_RING_CAPACITY <= u64::MAX,
        cache.cursor.positions == lane_heads(fleet.ring::<MutationRecord<L>>()),
        stores_wf(cache.stores),
        has_store(cache.stores, store),
        cache.stores[store_place(cache.stores, store)].1.coherent,
        is_news(
            cache.stores[store_place(cache.stores, store)].1,
            key,
            next_revision::<L>(stored::<L>(fleet, value)),
        ),
        1 <= millis,
        now_ms + millis <= u64::MAX,
        is_cache_poll::<L>(
            cache,
            recorded::<L>(
                stored::<L>(fleet, value),
                FRAME_KIND_PUT,
                mutation_record(
                    store,
                    key,
                    deadline_field(deadline(now_ms, Some(millis))),
                    next_payload::<L>(fleet, value),
                ),
            ),
            after,
            poll,
        ),
    ensures
        ({
            let place = store_place(cache.stores, store);
            let entry = EntryView {
                value,
                revision: next_revision::<L>(stored::<L>(fleet, value)),
                expires_at_ms: Some((now_ms + millis) as u64),
            };
            &&& poll.applied == 1
            &&& at_ms < now_ms + millis ==> after[place].1.read(key, at_ms) == CacheReadView::Hit(
                entry,
            )
            &&& at_ms >= now_ms + millis ==> after[place].1.read(key, at_ms)
                == CacheReadView::Miss
            &&& forall|i: int|
                0 <= i < cache.stores.len() && i != place ==> #[trigger] after[i]
                    == cache.stores[i]
        }),
{
    let before = stored::<L>(fleet, value);
    let payload = next_payload::<L>(fleet, value);
    let expires_at_ms = deadline(now_ms, Some(millis));
    let record = mutation_record(store, key, deadline_field(expires_at_ms), payload);
    let revision = next_revision::<L>(before);
    let mutation = MutationView::Put { store, key, revision, expires_at_ms, payload };
    lemma_records::<L>();
    lemma_ring_fits::<PayloadRecord<L>>(fleet);
    lemma_ring_fits::<MutationRecord<L>>(fleet);
    law_deadline_is_now_and_the_time_to_live(now_ms, millis);
    law_published_put_is_decoded::<L>(fleet, store, key, value, now_ms, Some(millis));
    assert(before.ring::<MutationRecord<L>>() == fleet.ring::<MutationRecord<L>>());
    lemma_one_mutation_is_polled::<L>(
        before,
        FRAME_KIND_PUT,
        record,
        cache,
        mutation,
        after,
        poll,
    );
    law_put_value_is_readable::<L>(fleet, value, FRAME_KIND_PUT, record);
    law_value_is_read_until_its_deadline(
        cache.stores[store_place(cache.stores, store)].1,
        store,
        key,
        value,
        revision,
        payload,
        now_ms,
        millis,
        at_ms,
    );
}

/// What one member deletes, every other member misses after its next poll.
pub proof fn law_delete_reaches_every_member<L: CacheLayout>(
    fleet: FleetView,
    store: Seq<u8>,
    key: Seq<u8>,
    cache: CacheView,
    after: Seq<StoreItem>,
    poll: CachePoll,
    at_ms: u64,
)
    requires
        layout_fault::<L>() is None,
        fleet.wf(),
        ready::<L>(fleet),
        key_fault::<L>(store.len(), key.len()) is None,
        fleet.ring::<MutationRecord<L>>().version < u64::MAX,
        fleet.own_lane::<MutationRecord<L>>().head < 0x100_0000_0000,
        cache.cursor.positions == lane_heads(fleet.ring::<MutationRecord<L>>()),
        stores_wf(cache.stores),
        has_store(cache.stores, store),
        cache.stores[store_place(cache.stores, store)].1.coherent,
        is_news(
            cache.stores[store_place(cache.stores, store)].1,
            key,
            next_revision::<L>(fleet),
        ),
        is_cache_poll::<L>(
            cache,
            recorded::<L>(
                fleet,
                FRAME_KIND_DELETE,
                mutation_record(store, key, 0, no_payload()),
            ),
            after,
            poll,
        ),
    ensures
        poll.applied == 1,
        after[store_place(cache.stores, store)].1.read(key, at_ms) == CacheReadView::Miss,
{
    let revision = next_revision::<L>(fleet);
    lemma_records::<L>();
    lemma_ring_fits::<MutationRecord<L>>(fleet);
    law_delete_round_trip(revision.mutation_id, revision.sequence, store, key);
    lemma_one_mutation_is_polled::<L>(
        fleet,
        FRAME_KIND_DELETE,
        mutation_record(store, key, 0, no_payload()),
        cache,
        MutationView::Delete { store, key, revision },
        after,
        poll,
    );
    law_deleted_key_is_missed(
        cache.stores[store_place(cache.stores, store)].1,
        store,
        key,
        revision,
        at_ms,
    );
}

/// What one member resets, every other member has forgotten after its next poll: each
/// key that was written before the reset is missed.
pub proof fn law_reset_reaches_every_member<L: CacheLayout>(
    fleet: FleetView,
    store: Seq<u8>,
    key: Seq<u8>,
    cache: CacheView,
    after: Seq<StoreItem>,
    poll: CachePoll,
    at_ms: u64,
)
    requires
        layout_fault::<L>() is None,
        fleet.wf(),
        ready::<L>(fleet),
        store_fault::<L>(store.len()) is None,
        fleet.ring::<MutationRecord<L>>().version < u64::MAX,
        fleet.own_lane::<MutationRecord<L>>().head < 0x100_0000_0000,
        cache.cursor.positions == lane_heads(fleet.ring::<MutationRecord<L>>()),
        stores_wf(cache.stores),
        has_store(cache.stores, store),
        cache.stores[store_place(cache.stores, store)].1.coherent,
        is_news(
            cache.stores[store_place(cache.stores, store)].1,
            key,
            next_revision::<L>(fleet),
        ),
        is_cache_poll::<L>(
            cache,
            recorded::<L>(
                fleet,
                FRAME_KIND_RESET,
                mutation_record(store, Seq::empty(), 0, no_payload()),
            ),
            after,
            poll,
        ),
    ensures
        poll.applied == 1,
        after[store_place(cache.stores, store)].1.read(key, at_ms) == CacheReadView::Miss,
{
    let revision = next_revision::<L>(fleet);
    lemma_records::<L>();
    lemma_ring_fits::<MutationRecord<L>>(fleet);
    law_reset_round_trip(revision.mutation_id, revision.sequence, store);
    lemma_one_mutation_is_polled::<L>(
        fleet,
        FRAME_KIND_RESET,
        mutation_record(store, Seq::empty(), 0, no_payload()),
        cache,
        MutationView::Reset { store, revision },
        after,
        poll,
    );
    law_reset_forgets_what_was_before_it(
        cache.stores[store_place(cache.stores, store)].1,
        store,
        revision,
        key,
        revision,
        at_ms,
    );
}

/// A poll that lost mutations, or met what is none, serves nothing until the stores are
/// recovered: every store asks for it.
pub proof fn law_poll_with_a_loss_serves_nothing<L: CacheLayout>(
    cache: CacheView,
    fleet: FleetView,
    after: Seq<StoreItem>,
    poll: CachePoll,
    i: int,
    key: Seq<u8>,
    at_ms: u64,
)
    requires
        stores_wf(cache.stores),
        is_cache_poll::<L>(cache, fleet, after, poll),
        poll.loss.overwritten > 0 || poll.loss.unavailable > 0 || poll.malformed > 0,
        0 <= i < cache.stores.len(),
    ensures
        after.len() == cache.stores.len(),
        after[i].0 == cache.stores[i].0,
        after[i].1.read(key, at_ms) == CacheReadView::ResyncRequired,
        poll.resync_required,
{
    let start = DispatchView {
        stores: before_dispatch(cache.stores, true),
        applied: 0,
        ignored: 0,
        unavailable: Seq::empty(),
        unknown: Seq::empty(),
    };
    let mutations = visible_mutations::<L>(fleet, cache.cursor);
    assert(start.stores.len() == cache.stores.len());
    assert forall|k: int| 0 <= k < start.stores.len() implies {
        &&& (#[trigger] start.stores[k]).0 == cache.stores[k].0
        &&& !start.stores[k].1.coherent
    } by {}
    lemma_incoherent_stays::<L>(start, fleet, mutations);
    assert(!after[i].1.coherent);
}

proof fn lemma_incoherent_stays<L: CacheLayout>(
    start: DispatchView,
    fleet: FleetView,
    mutations: Seq<MutationView>,
)
    requires
        forall|k: int| 0 <= k < start.stores.len() ==> !(#[trigger] start.stores[k]).1.coherent,
    ensures
        ({
            let end = start.run::<L>(fleet, mutations);
            &&& end.stores.len() == start.stores.len()
            &&& forall|k: int|
                0 <= k < start.stores.len() ==> (#[trigger] end.stores[k]).0 == start.stores[k].0
                    && !end.stores[k].1.coherent
        }),
    decreases mutations.len(),
{
    if mutations.len() > 0 {
        lemma_incoherent_stays::<L>(start, fleet, mutations.drop_last());
    }
}

/// What a poll gives of the frames that it meets: the mutations of those that are
/// mutations, in the order of the frames, and nothing of the others.
pub proof fn law_poll_gives_every_mutation(frames: Seq<FrameView>) -> (places: Seq<int>)
    ensures
        ascending(places, frames.len() as int),
        decode_all(frames).len() == places.len(),
        forall|i: int|
            0 <= i < places.len() ==> decoded(frames[#[trigger] places[i]]) == Some(
                decode_all(frames)[i],
            ),
        forall|p: int|
            0 <= p < frames.len() ==> (decoded(#[trigger] frames[p]) is Some
                <==> places.contains(p)),
{
    let meaning = |frame: FrameView| decoded(frame);
    lemma_meant(frames, meaning);
    lemma_mutations_are_meant(frames);
    meant_at(frames, meaning)
}

proof fn lemma_mutations_are_meant(frames: Seq<FrameView>)
    ensures
        decode_all(frames) == meant(frames, |frame: FrameView| decoded(frame)),
    decreases frames.len(),
{
    if frames.len() > 0 {
        lemma_mutations_are_meant(frames.drop_last());
    }
}

/// A value is given back only where all of it is there: as many frames as were written,
/// one behind the other from the first id on, each of the version of the put, and of the
/// length of the value together.
pub proof fn law_value_is_whole_or_missing<L: CacheLayout>(
    fleet: FleetView,
    payload: PayloadRef,
    i: int,
)
    requires
        value_at::<L>(fleet, payload) is Some,
        0 <= i < payload.chunk_count,
    ensures
        ({
            let value = value_at::<L>(fleet, payload)->0;
            let id = NetId64::of(
                L::PAYLOAD_RING_KIND,
                node_of(payload.first_id.0),
                (counter_of(payload.first_id.0) + i) as u64,
            );
            let ring = fleet.rings[L::PAYLOAD_RING_KIND];
            &&& value.len() == payload.value_len
            &&& kind_of(payload.first_id.0) == L::PAYLOAD_RING_KIND
            &&& fleet.rings.contains_key(L::PAYLOAD_RING_KIND)
            &&& ring.lookup(id) matches Some(frame) && frame.ver == payload.payload_version
                && frame.kind == 1 && exists|at: int|
                0 <= at <= value.len() - frame.payload.len() && #[trigger] value.subrange(
                    at,
                    at + frame.payload.len(),
                ) == frame.payload
        }),
{
    let kind = L::PAYLOAD_RING_KIND;
    lemma_chunk_is_part(fleet, payload, kind, payload.chunk_count as nat, i);
}

proof fn lemma_chunk_is_part(fleet: FleetView, payload: PayloadRef, kind: u8, count: nat, i: int)
    requires
        chunks_at(fleet, payload, kind, count) is Some,
        0 <= i < count,
    ensures
        chunk_at(fleet, payload, kind, i) is Some,
        ({
            let value = chunks_at(fleet, payload, kind, count)->0;
            let chunk = chunk_at(fleet, payload, kind, i)->0;
            exists|at: int|
                0 <= at <= value.len() - chunk.len() && #[trigger] value.subrange(
                    at,
                    at + chunk.len(),
                ) == chunk
        }),
    decreases count,
{
    let value = chunks_at(fleet, payload, kind, count)->0;
    let before = chunks_at(fleet, payload, kind, (count - 1) as nat)->0;
    let last = chunk_at(fleet, payload, kind, count - 1)->0;
    assert(value == before + last);
    let chunk = chunk_at(fleet, payload, kind, i)->0;
    if i < count - 1 {
        lemma_chunk_is_part(fleet, payload, kind, (count - 1) as nat, i);
        let at = choose|at: int|
            0 <= at <= before.len() - chunk.len() && #[trigger] before.subrange(
                at,
                at + chunk.len(),
            ) == chunk;
        assert(value.subrange(at, at + chunk.len()) =~= before.subrange(at, at + chunk.len()));
    } else {
        let at = before.len() as int;
        assert(value.subrange(at, at + chunk.len()) =~= chunk);
    }
}

/// A poll accounts for every counter between the cursors and the heads: each gives a
/// mutation, or is counted as malformed, or as lost.
pub proof fn law_poll_accounts_for_every_counter<L: CacheLayout>(
    fleet: FleetView,
    cursor: LaneCursorView,
)
    ensures
        ({
            let ring = fleet.ring::<MutationRecord<L>>();
            let positions = cursor.begin(fleet.capacity);
            let overwritten = lanes_overwritten(ring, positions, positions.len());
            let unavailable = lanes_unavailable(ring, positions, positions.len());
            &&& visible_mutations::<L>(fleet, cursor).len() + visible_malformed::<L>(fleet, cursor)
                + overwritten + unavailable == behind(ring, positions, positions.len())
            &&& 0 <= visible_malformed::<L>(fleet, cursor)
            &&& overwritten <= u64::MAX ==> visible_loss::<L>(fleet, cursor).overwritten
                == overwritten
            &&& unavailable <= u64::MAX ==> visible_loss::<L>(fleet, cursor).unavailable
                == unavailable
        }),
{
    let ring = fleet.ring::<MutationRecord<L>>();
    let positions = cursor.begin(fleet.capacity);
    let frames = visible_frames::<L>(fleet, cursor);
    crate::fleet::laws::law_poll_accounts_for_every_counter(ring, positions, positions.len());
    let places = law_poll_gives_every_mutation(frames);
    lemma_no_more_places(places, frames.len() as int);
    law_by_revision_sorts(decode_all(frames));
}

/// After the rings were reset there is nothing to read, for whoever begins at the start,
/// and numbers start again.
pub proof fn law_reset_rings_are_empty<L: CacheLayout>(fleet: FleetView, payload: PayloadRef)
    requires
        layout_fault::<L>() is None,
    ensures
        ({
            let after = emptied::<L>(fleet);
            let start = LaneCursorView {
                positions: Seq::new(fleet.capacity as nat, |i: int| 0u64),
                initial: 0,
            };
            &&& visible_mutations::<L>(after, start).len() == 0
            &&& value_at::<L>(after, payload) is None
            &&& after.ring::<MutationRecord<L>>().version == 0
            &&& after.ring::<PayloadRecord<L>>().version == 0
        }),
{
    lemma_records::<L>();
    let after = emptied::<L>(fleet);
    let start = LaneCursorView {
        positions: Seq::new(fleet.capacity as nat, |i: int| 0u64),
        initial: 0,
    };
    let ring = after.ring::<MutationRecord<L>>();
    let positions = start.begin(after.capacity);
    assert(ring.lanes.len() == fleet.capacity);
    assert(lane_heads(ring) =~= Seq::new(fleet.capacity as nat, |i: int| 0u64));
    assert(positions =~= lane_heads(ring));
    law_poll_at_head_is_empty(ring, ring.lanes.len());
    let frames = visible_frames::<L>(after, start);
    assert(frames.len() == 0);
    law_by_revision_sorts(decode_all(frames));
    if payload.chunk_count > 0 {
        let kind = L::PAYLOAD_RING_KIND;
        lemma_no_chunks(after, payload, kind, payload.chunk_count as nat);
    }
}

proof fn lemma_no_chunks(fleet: FleetView, payload: PayloadRef, kind: u8, count: nat)
    requires
        count > 0,
        fleet.rings.contains_key(kind) ==> forall|lane: int, slot: int|
            #![trigger fleet.rings[kind].lanes[lane].slots[slot]]
            0 <= lane < fleet.rings[kind].lanes.len() && 0 <= slot
                < fleet.rings[kind].lanes[lane].slots.len()
                ==> fleet.rings[kind].lanes[lane].slots[slot] is None,
        fleet.rings.contains_key(kind) ==> forall|lane: int|
            0 <= lane < fleet.rings[kind].lanes.len() ==> (
            #[trigger] fleet.rings[kind].lanes[lane]).slots.len() > 0,
    ensures
        chunks_at(fleet, payload, kind, count) is None,
    decreases count,
{
    if count > 1 {
        lemma_no_chunks(fleet, payload, kind, (count - 1) as nat);
    } else {
        let id = NetId64::of(
            kind,
            node_of(payload.first_id.0),
            (counter_of(payload.first_id.0) + 0) as u64,
        );
        if fleet.rings.contains_key(kind) {
            let ring = fleet.rings[kind];
            if kind_of(id.0) == ring.kind && ring.serves(node_of(id.0)) {
                let lane = ring.spec.lane_of(node_of(id.0));
                assert(ring.lanes[lane].slots.len() > 0);
                vstd::arithmetic::div_mod::lemma_mod_bound(
                    counter_of(id.0) as int,
                    ring.lanes[lane].slots.len() as int,
                );
                let slot = ring.lanes[lane].slot_of(counter_of(id.0));
                assert(ring.lanes[lane].slots[slot] is None);
            }
        }
        assert(chunk_at(fleet, payload, kind, 0) is None);
        assert(chunks_at(fleet, payload, kind, 0) == Some(Seq::<u8>::empty()));
    }
}

/// Where a store resumes after a loss: it takes nothing that was published before, and
/// forgets nothing that it knew not to take.
pub proof fn law_recovered_store_takes_only_what_comes_later(
    local: LocalView,
    sequence: u64,
    late: CacheRevision,
)
    ensures
        local.raised_floor(sequence) >= sequence,
        local.floor matches Some(floor) ==> local.raised_floor(sequence) >= floor,
        local.raised_floor(sequence) == sequence || local.floor == Some(
            local.raised_floor(sequence),
        ),
        local.accepts(late) <==> (local.floor matches Some(floor) ==> late.sequence > floor),
{
}

/// Mutations of one revision keep the order in which they were read.
pub proof fn law_equal_revisions_keep_their_order(
    mutations: Seq<MutationView>,
    revision: CacheRevision,
)
    ensures
        by_revision(mutations).filter(|item: MutationView| item.revision() == revision)
            == mutations.filter(|item: MutationView| item.revision() == revision),
    decreases mutations.len(),
{
    reveal(Seq::filter);
    if mutations.len() > 0 {
        law_equal_revisions_keep_their_order(mutations.drop_last(), revision);
        law_by_revision_sorts(mutations.drop_last());
        lemma_insert_filtered(by_revision(mutations.drop_last()), mutations.last(), revision);
    }
}

proof fn lemma_insert_filtered(
    mutations: Seq<MutationView>,
    mutation: MutationView,
    revision: CacheRevision,
)
    requires
        in_order(mutations),
    ensures
        ({
            let same = |item: MutationView| item.revision() == revision;
            insert_by_revision(mutations, mutation).filter(same) == if same(mutation) {
                mutations.filter(same).push(mutation)
            } else {
                mutations.filter(same)
            }
        }),
    decreases mutations.len(),
{
    reveal(Seq::filter);
    let same = |item: MutationView| item.revision() == revision;
    let after = insert_by_revision(mutations, mutation);
    if mutations.len() == 0 || !mutation.revision().before(mutations.last().revision()) {
        assert(after.drop_last() =~= mutations);
    } else {
        let shorter = mutations.drop_last();
        assert(in_order(shorter)) by {
            assert forall|i: int, j: int| 0 <= i < j < shorter.len() implies !(
            #[trigger] shorter[j]).revision().before((#[trigger] shorter[i]).revision()) by {
                assert(mutations[i] == shorter[i] && mutations[j] == shorter[j]);
            }
        }
        lemma_insert_filtered(shorter, mutation, revision);
        assert(after.drop_last() =~= insert_by_revision(shorter, mutation));
        assert(after.last() == mutations.last());
    }
}

/// Revisions grow from mutation to mutation: what is published takes the next sequence of
/// the ring, under an id of the member that published it.
pub proof fn law_revisions_grow<L: CacheLayout>(
    fleet: FleetView,
    frame_kind: u8,
    record: Seq<u8>,
)
    requires
        layout_fault::<L>() is None,
        fleet.wf(),
        ready::<L>(fleet),
        fleet.ring::<MutationRecord<L>>().version < u64::MAX - 1,
    ensures
        ({
            let after = recorded::<L>(fleet, frame_kind, record);
            &&& next_revision::<L>(fleet).sequence == fleet.ring::<MutationRecord<L>>().version + 1
            &&& next_revision::<L>(after).sequence == next_revision::<L>(fleet).sequence + 1
            &&& next_revision::<L>(fleet).before(next_revision::<L>(after))
            &&& node_of(next_revision::<L>(fleet).mutation_id.0) == fleet.node
            &&& kind_of(next_revision::<L>(fleet).mutation_id.0) == L::MUTATION_RING_KIND
        }),
{
    lemma_records::<L>();
    lemma_ring_fits::<MutationRecord<L>>(fleet);
    let ring = fleet.ring::<MutationRecord<L>>();
    lemma_pack(
        L::MUTATION_RING_KIND,
        fleet.node,
        ring.lanes[ring.spec.lane_of(fleet.node)].head,
    );
}

/// Mutations are dispatched one after the other, in their order: those of two stretches as
/// those of the first and then those of the second.
pub proof fn law_dispatch_goes_in_order<L: CacheLayout>(
    start: DispatchView,
    fleet: FleetView,
    first: Seq<MutationView>,
    second: Seq<MutationView>,
    mutation: MutationView,
)
    ensures
        start.run::<L>(fleet, first + second) == start.run::<L>(fleet, first).run::<L>(
            fleet,
            second,
        ),
        start.run::<L>(fleet, seq![mutation]) == start.step::<L>(fleet, mutation),
        start.run::<L>(fleet, Seq::empty()) == start,
    decreases second.len(),
{
    let one = seq![mutation];
    assert(one.drop_last() =~= Seq::<MutationView>::empty());
    assert(start.run::<L>(fleet, one.drop_last()) == start);
    if second.len() == 0 {
        assert(first + second =~= first);
    } else {
        law_dispatch_goes_in_order::<L>(start, fleet, first, second.drop_last(), mutation);
        assert((first + second).drop_last() =~= first + second.drop_last());
        assert((first + second).last() == second.last());
    }
}

} // verus!
