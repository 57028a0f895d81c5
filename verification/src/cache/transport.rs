//! Publishing and following cache mutations on a fleet's rings.
use bytes::Bytes;
use std::marker::PhantomData;
use vstd::prelude::*;

use crate::cache::error::Error;
use crate::cache::layout::{
    layout_fault, lemma_records, validate, CacheLayout, MutationRecord, PayloadRecord,
};
use crate::cache::protocol;
use crate::cache::protocol::{
    deadline_field, decode, decoded, key_fault, key_limit, mutation_record, no_payload,
    store_fault, store_limit, CacheMutation, CacheRevision, MutationView, PayloadRef,
    FRAME_KIND_DELETE, FRAME_KIND_PAYLOAD, FRAME_KIND_PUT, FRAME_KIND_RESET,
};
use crate::fleet::cursor::{
    lane_heads, lanes_frames, lanes_overwritten, lanes_unavailable, FleetLaneCursor,
    LaneCursorView,
};
use crate::fleet::rings::FleetRings;
use crate::fleet::{lemma_ring_fits, FleetView};
use crate::id::{counter_of, kind_of, node_of, NetId64};
use crate::numbers::{max_of, min_of};
use crate::octets;
use crate::octets::{all_octets, octets};
use crate::ring::cursor::RingLoss;
use crate::ring::{frame_views, FrameView, RingView};
use crate::typed::{declared, OrbitTyped};

verus! {

broadcast use crate::codec::group_widths;

/// Caller-owned read positions for every mutation lane.
#[derive(Debug, PartialEq, Eq)]
pub struct CacheMutationCursor {
    inner: FleetLaneCursor,
}

impl View for CacheMutationCursor {
    type V = LaneCursorView;

    closed spec fn view(&self) -> LaneCursorView {
        self.inner@
    }
}

/// Decoded result of advancing a mutation cursor.
#[derive(Debug, PartialEq, Eq)]
pub struct CacheMutationPoll {
    pub mutations: Vec<CacheMutation>,
    pub loss: RingLoss,
    pub malformed: u64,
}

/// What each mutation of a sequence says.
pub open spec fn mutation_views(mutations: Seq<CacheMutation>) -> Seq<MutationView> {
    mutations.map_values(|mutation: CacheMutation| mutation@)
}

impl CacheMutationPoll {
    /// True when nothing was read, lost or malformed.
    pub fn is_empty(&self) -> (empty: bool)
        ensures
            empty == (self.mutations@.len() == 0 && self.loss.sum() == 0 && self.malformed == 0),
    {
        self.mutations.len() == 0 && self.loss.total() == 0 && self.malformed == 0
    }

    /// True when mutations were lost, so that local state is uncertain.
    pub fn requires_full_resync(&self) -> (required: bool)
        ensures
            required == (self.loss.sum() != 0 || self.malformed != 0),
    {
        self.loss.total() != 0 || self.malformed != 0
    }
}

/// The mutations of these frames, in order; frames that are none are left out.
pub open spec fn decode_all(frames: Seq<FrameView>) -> Seq<MutationView>
    decreases frames.len(),
{
    if frames.len() == 0 {
        Seq::empty()
    } else {
        let before = decode_all(frames.drop_last());
        match decoded(frames.last()) {
            Some(mutation) => before.push(mutation),
            None => before,
        }
    }
}

/// A mutation inserted behind every mutation that does not come after it.
pub open spec fn insert_by_revision(
    mutations: Seq<MutationView>,
    mutation: MutationView,
) -> Seq<MutationView>
    decreases mutations.len(),
{
    if mutations.len() == 0 || !mutation.revision().before(mutations.last().revision()) {
        mutations.push(mutation)
    } else {
        insert_by_revision(mutations.drop_last(), mutation).push(mutations.last())
    }
}

/// The mutations in the order of their revisions. Mutations with one revision
/// keep their order.
pub open spec fn by_revision(mutations: Seq<MutationView>) -> Seq<MutationView>
    decreases mutations.len(),
{
    if mutations.len() == 0 {
        Seq::empty()
    } else {
        insert_by_revision(by_revision(mutations.drop_last()), mutations.last())
    }
}

proof fn lemma_insert_place(mutations: Seq<MutationView>, mutation: MutationView, place: int)
    requires
        0 <= place <= mutations.len(),
        forall|i: int|
            place <= i < mutations.len() ==> mutation.revision().before(
                (#[trigger] mutations[i]).revision(),
            ),
        place > 0 ==> !mutation.revision().before(mutations[place - 1].revision()),
    ensures
        insert_by_revision(mutations, mutation) == mutations.insert(place, mutation),
    decreases mutations.len(),
{
    if place == mutations.len() {
        assert(mutations.insert(place, mutation) =~= mutations.push(mutation));
    } else {
        let shorter = mutations.drop_last();
        assert(mutation.revision().before(mutations[mutations.len() - 1].revision()));
        lemma_insert_place(shorter, mutation, place);
        assert(mutations.insert(place, mutation) =~= shorter.insert(place, mutation).push(
            mutations.last(),
        ));
    }
}

/// True when no mutation comes before an earlier one.
pub open spec fn in_order(mutations: Seq<MutationView>) -> bool {
    forall|i: int, j: int|
        0 <= i < j < mutations.len() ==> !(#[trigger] mutations[j]).revision().before(
            (#[trigger] mutations[i]).revision(),
        )
}

proof fn lemma_insert_in_order(mutations: Seq<MutationView>, mutation: MutationView)
    requires
        in_order(mutations),
    ensures
        in_order(insert_by_revision(mutations, mutation)),
        insert_by_revision(mutations, mutation).len() == mutations.len() + 1,
        insert_by_revision(mutations, mutation).to_multiset() == mutations.to_multiset().insert(
            mutation,
        ),
        forall|i: int|
            0 <= i <= mutations.len() ==> (#[trigger] insert_by_revision(mutations, mutation)[i])
                == mutation || mutations.contains(insert_by_revision(mutations, mutation)[i]),
    decreases mutations.len(),
{
    broadcast use vstd::seq_lib::group_to_multiset_ensures;

    let after = insert_by_revision(mutations, mutation);
    if mutations.len() == 0 || !mutation.revision().before(mutations.last().revision()) {
        assert forall|i: int, j: int| 0 <= i < j < after.len() implies !(
        #[trigger] after[j]).revision().before((#[trigger] after[i]).revision()) by {
            if j < mutations.len() {
                assert(after[i] == mutations[i]);
                assert(after[j] == mutations[j]);
            } else {
                assert(after[i] == mutations[i]);
                let last = mutations[mutations.len() - 1];
                if i < mutations.len() - 1 {
                    assert(!last.revision().before(mutations[i].revision()));
                }
            }
        }
        assert forall|i: int| 0 <= i <= mutations.len() implies (#[trigger] after[i]) == mutation
            || mutations.contains(after[i]) by {
            if i < mutations.len() {
                assert(after[i] == mutations[i]);
            }
        }
    } else {
        let shorter = mutations.drop_last();
        let last = mutations.last();
        assert(mutations == shorter.push(last));
        assert(in_order(shorter)) by {
            assert forall|i: int, j: int| 0 <= i < j < shorter.len() implies !(
            #[trigger] shorter[j]).revision().before((#[trigger] shorter[i]).revision()) by {
                assert(shorter[i] == mutations[i]);
                assert(shorter[j] == mutations[j]);
            }
        }
        lemma_insert_in_order(shorter, mutation);
        let inner = insert_by_revision(shorter, mutation);
        assert forall|i: int, j: int| 0 <= i < j < after.len() implies !(
        #[trigger] after[j]).revision().before((#[trigger] after[i]).revision()) by {
            assert(after[i] == inner[i]);
            if j < inner.len() {
                assert(after[j] == inner[j]);
            } else {
                assert(inner[i] == mutation || shorter.contains(inner[i]));
                if inner[i] != mutation {
                    let at = choose|at: int| 0 <= at < shorter.len() && shorter[at] == inner[i];
                    assert(mutations[at] == inner[i]);
                    assert(mutations[mutations.len() - 1] == last);
                }
            }
        }
        assert(mutations.to_multiset() =~= shorter.to_multiset().insert(last));
        assert(after.to_multiset() =~= inner.to_multiset().insert(last));
        assert(after.to_multiset() =~= mutations.to_multiset().insert(mutation));
        assert forall|i: int| 0 <= i <= mutations.len() implies (#[trigger] after[i]) == mutation
            || mutations.contains(after[i]) by {
            if i < inner.len() {
                assert(after[i] == inner[i]);
                if inner[i] != mutation {
                    let at = choose|at: int| 0 <= at < shorter.len() && shorter[at] == inner[i];
                    assert(mutations[at] == inner[i]);
                }
            } else {
                assert(mutations[mutations.len() - 1] == last);
            }
        }
    }
}

/// Ordering mutations by revision gives the same mutations, in an order in
/// which none comes before an earlier one.
pub proof fn law_by_revision_sorts(mutations: Seq<MutationView>)
    ensures
        in_order(by_revision(mutations)),
        by_revision(mutations).len() == mutations.len(),
        by_revision(mutations).to_multiset() == mutations.to_multiset(),
    decreases mutations.len(),
{
    broadcast use vstd::seq_lib::group_to_multiset_ensures;

    if mutations.len() > 0 {
        let shorter = mutations.drop_last();
        law_by_revision_sorts(shorter);
        lemma_insert_in_order(by_revision(shorter), mutations.last());
        assert(mutations == shorter.push(mutations.last()));
        assert(mutations.to_multiset() =~= shorter.to_multiset().insert(mutations.last()));
    } else {
        assert(mutations =~= Seq::<MutationView>::empty());
    }
}

fn sort_by_revision(mutations: Vec<CacheMutation>) -> (sorted: Vec<CacheMutation>)
    ensures
        mutation_views(sorted@) == by_revision(mutation_views(mutations@)),
{
    let ghost views = mutation_views(mutations@);
    let mut sorted: Vec<CacheMutation> = Vec::new();
    let mut rest: Vec<CacheMutation> = mutations;
    let total: usize = rest.len();
    let mut taken: usize = 0;
    assert(mutation_views(sorted@) =~= by_revision(views.subrange(0, 0)));
    assert(mutation_views(rest@) =~= views.subrange(0, total as int));
    while taken < total
        invariant
            taken <= total,
            total == views.len(),
            mutation_views(rest@) == views.subrange(taken as int, total as int),
            mutation_views(sorted@) == by_revision(views.subrange(0, taken as int)),
        decreases total - taken,
    {
        let ghost before = rest@;
        assert(rest@.len() == mutation_views(rest@).len());
        let mutation = rest.remove(0);
        proof {
            assert(mutation@ == mutation_views(before)[0]);
            assert(mutation@ == views[taken as int]);
            assert(mutation_views(rest@) =~= views.subrange(taken + 1, total as int)) by {
                assert forall|i: int| 0 <= i < rest@.len() implies #[trigger] mutation_views(
                    rest@,
                )[i] == views[taken + 1 + i] by {
                    assert(rest@[i] == before[i + 1]);
                    assert(mutation_views(before)[i + 1] == views[taken + 1 + i]);
                }
            }
        }
        let mut place: usize = sorted.len();
        let revision = mutation.revision();
        while place > 0 && revision.is_before(sorted[place - 1].revision())
            invariant
                place <= sorted@.len(),
                revision == mutation@.revision(),
                forall|i: int|
                    place <= i < sorted@.len() ==> revision.before(
                        (#[trigger] mutation_views(sorted@)[i]).revision(),
                    ),
            decreases place,
        {
            place = place - 1;
        }
        let ghost prefix = views.subrange(0, taken + 1);
        proof {
            if place > 0 {
                assert(mutation_views(sorted@)[place - 1] == sorted@[place - 1]@);
            }
            lemma_insert_place(mutation_views(sorted@), mutation@, place as int);
            assert(prefix.drop_last() =~= views.subrange(0, taken as int));
            assert(prefix.last() == mutation@);
        }
        let ghost old_sorted = sorted@;
        sorted.insert(place, mutation);
        assert(mutation_views(sorted@) =~= mutation_views(old_sorted).insert(
            place as int,
            mutation@,
        ));
        taken = taken + 1;
    }
    assert(views.subrange(0, total as int) =~= views);
    sorted
}

/// A value cut into chunks of this size. The last chunk holds the rest, and an
/// empty value is one empty chunk.
pub open spec fn split(value: Seq<u8>, size: int) -> Seq<Seq<u8>>
    decreases value.len(),
{
    if size <= 0 || value.len() <= size {
        seq![value]
    } else {
        seq![value.subrange(0, size)] + split(value.subrange(size, value.len() as int), size)
    }
}

/// The chunks put together again.
pub open spec fn join(chunks: Seq<Seq<u8>>) -> Seq<u8>
    decreases chunks.len(),
{
    if chunks.len() == 0 {
        Seq::empty()
    } else {
        join(chunks.drop_last()) + chunks.last()
    }
}

proof fn lemma_join_first(first: Seq<u8>, rest: Seq<Seq<u8>>)
    ensures
        join(seq![first] + rest) == first + join(rest),
    decreases rest.len(),
{
    let all = seq![first] + rest;
    if rest.len() == 0 {
        assert(all.drop_last() =~= Seq::<Seq<u8>>::empty());
        assert(join(Seq::<Seq<u8>>::empty()) =~= Seq::<u8>::empty());
        assert(rest =~= Seq::<Seq<u8>>::empty());
        assert(join(all) =~= first + join(rest));
    } else {
        assert(all.drop_last() =~= seq![first] + rest.drop_last());
        lemma_join_first(first, rest.drop_last());
        assert(join(all) =~= first + join(rest));
    }
}

/// Cutting a value and putting the chunks together gives the value.
pub proof fn law_split_then_join(value: Seq<u8>, size: int)
    requires
        size > 0,
    ensures
        join(split(value, size)) == value,
    decreases value.len(),
{
    if value.len() <= size {
        let chunks = seq![value];
        assert(chunks.drop_last() =~= Seq::<Seq<u8>>::empty());
        assert(join(Seq::<Seq<u8>>::empty()) =~= Seq::<u8>::empty());
        assert(join(chunks) =~= value);
    } else {
        let head = value.subrange(0, size);
        let tail = value.subrange(size, value.len() as int);
        law_split_then_join(tail, size);
        lemma_join_first(head, split(tail, size));
        assert(value =~= head + tail);
    }
}

/// A value of at most `count` times `size` bytes has at most `count` chunks,
/// none larger than `size`.
pub proof fn lemma_split_fits(value: Seq<u8>, size: int, count: int)
    requires
        size > 0,
        count >= 1,
        value.len() <= count * size,
    ensures
        1 <= split(value, size).len() <= count,
        forall|i: int|
            0 <= i < split(value, size).len() ==> (#[trigger] split(value, size)[i]).len() <= size,
    decreases value.len(),
{
    if value.len() > size {
        let tail = value.subrange(size, value.len() as int);
        assert(count >= 2) by (nonlinear_arith)
            requires
                size > 0,
                value.len() <= count * size,
                value.len() > size,
        ;
        assert((count - 1) * size == count * size - size) by (nonlinear_arith);
        lemma_split_fits(tail, size, count - 1);
        let chunks = split(value, size);
        assert forall|i: int| 0 <= i < chunks.len() implies (#[trigger] chunks[i]).len() <= size by {
            if i > 0 {
                assert(chunks[i] == split(tail, size)[i - 1]);
            }
        }
    }
}

fn split_payload<L: CacheLayout>(value: &[u8]) -> (chunks: Vec<Bytes>)
    requires
        L::PAYLOAD_RING_PAYLOAD_CAPACITY > 0,
    ensures
        all_octets(chunks@) == split(value@, L::PAYLOAD_RING_PAYLOAD_CAPACITY as int),
{
    let size: usize = L::PAYLOAD_RING_PAYLOAD_CAPACITY;
    let total: usize = value.len();
    let mut chunks: Vec<Bytes> = Vec::new();
    let mut from: usize = 0;
    assert(value@.subrange(0, total as int) =~= value@);
    assert(all_octets(chunks@) + split(value@, size as int) =~= split(value@, size as int));
    while total - from > size
        invariant
            size > 0,
            from <= total,
            total == value@.len(),
            all_octets(chunks@) + split(value@.subrange(from as int, total as int), size as int)
                == split(value@, size as int),
        decreases total - from,
    {
        let ghost rest = value@.subrange(from as int, total as int);
        let ghost before = chunks@;
        chunks.push(octets::copy_of(&value[from..from + size]));
        proof {
            let head = rest.subrange(0, size as int);
            let tail = rest.subrange(size as int, rest.len() as int);
            assert(head =~= value@.subrange(from as int, from + size));
            assert(tail =~= value@.subrange(from + size, total as int));
            assert(all_octets(chunks@) =~= all_octets(before).push(head));
            assert(all_octets(before) + split(rest, size as int) =~= all_octets(chunks@) + split(
                tail,
                size as int,
            ));
        }
        from = from + size;
    }
    let ghost before = chunks@;
    chunks.push(octets::copy_of(&value[from..total]));
    assert(all_octets(chunks@) =~= all_octets(before) + split(
        value@.subrange(from as int, total as int),
        size as int,
    ));
    chunks
}

/// A time to live in milliseconds: at least one, at most the largest `u64`.
pub open spec fn ttl_of(millis: u128) -> u64 {
    min_of(max_of(millis as int, 1), u64::MAX as int) as u64
}

/// The deadline of a value that is put now.
pub open spec fn deadline(now_ms: u64, ttl_millis: Option<u128>) -> Option<u64> {
    match ttl_millis {
        Some(millis) => Some(min_of(now_ms + ttl_of(millis), u64::MAX as int) as u64),
        None => None,
    }
}

fn duration_ms(millis: u128) -> (ttl: u64)
    ensures
        ttl == ttl_of(millis),
{
    if millis < 1 {
        1
    } else if millis > 0xffff_ffff_ffff_ffff {
        0xffff_ffff_ffff_ffff
    } else {
        millis as u64
    }
}

/// The largest value: what the payload lane can hold.
pub open spec fn value_limit<L: CacheLayout>() -> int {
    min_of(
        L::PAYLOAD_RING_CAPACITY * L::PAYLOAD_RING_PAYLOAD_CAPACITY,
        usize::MAX as int,
    )
}

/// Why a put is refused.
pub open spec fn put_fault<L: CacheLayout>(store_len: nat, key_len: nat, value_len: nat) -> Option<
    Error,
> {
    if key_fault::<L>(store_len, key_len) is Some {
        key_fault::<L>(store_len, key_len)
    } else if value_len > value_limit::<L>() {
        Some(
            Error::ValueTooLarge {
                value_len: value_len as usize,
                max: value_limit::<L>() as usize,
            },
        )
    } else {
        None
    }
}

/// The handle after one version of `T` was allocated.
pub open spec fn versioned<T: OrbitTyped>(view: FleetView) -> FleetView {
    view.with_ring::<T>(
        RingView { version: (view.ring::<T>().version + 1) as u64, ..view.ring::<T>() },
    )
}

/// The handle after one frame of `T` was published.
pub open spec fn published<T: OrbitTyped>(
    view: FleetView,
    frame_kind: u8,
    ver: u64,
    payload: Seq<u8>,
) -> FleetView {
    let ring = view.ring::<T>();
    view.with_ring::<T>(
        ring.append(
            ring.spec.lane_of(view.node),
            ring.next_frame(view.node, frame_kind, ver, payload),
        ),
    )
}

/// The id of the next frame of `T`.
pub open spec fn next_id_of<T: OrbitTyped>(view: FleetView) -> NetId64 {
    NetId64::of(view.ring::<T>().kind, view.node, view.own_lane::<T>().head)
}

/// The handle after a mutation record was published under a fresh version.
pub open spec fn recorded<L: CacheLayout>(
    view: FleetView,
    frame_kind: u8,
    record: Seq<u8>,
) -> FleetView {
    let after = versioned::<MutationRecord<L>>(view);
    published::<MutationRecord<L>>(
        after,
        frame_kind,
        (view.ring::<MutationRecord<L>>().version + 1) as u64,
        record,
    )
}

/// The revision that the next mutation gets.
pub open spec fn next_revision<L: CacheLayout>(view: FleetView) -> CacheRevision {
    CacheRevision {
        sequence: (view.ring::<MutationRecord<L>>().version + 1) as u64,
        mutation_id: next_id_of::<MutationRecord<L>>(versioned::<MutationRecord<L>>(view)),
    }
}

/// The handle after a value's chunks were published under a fresh version.
pub open spec fn stored<L: CacheLayout>(view: FleetView, value: Seq<u8>) -> FleetView {
    let after = versioned::<PayloadRecord<L>>(view);
    after.with_ring::<PayloadRecord<L>>(
        after.ring::<PayloadRecord<L>>().append_all(
            view.node,
            FRAME_KIND_PAYLOAD,
            (view.ring::<PayloadRecord<L>>().version + 1) as u64,
            split(value, L::PAYLOAD_RING_PAYLOAD_CAPACITY as int),
        ),
    )
}

/// The address of a value whose chunks are published next.
pub open spec fn next_payload<L: CacheLayout>(view: FleetView, value: Seq<u8>) -> PayloadRef {
    PayloadRef {
        first_id: next_id_of::<PayloadRecord<L>>(versioned::<PayloadRecord<L>>(view)),
        payload_version: (view.ring::<PayloadRecord<L>>().version + 1) as u64,
        chunk_count: split(value, L::PAYLOAD_RING_PAYLOAD_CAPACITY as int).len() as u32,
        value_len: value.len() as u64,
    }
}

/// True when both rings of a layout can be used with a handle.
pub open spec fn ready<L: CacheLayout>(view: FleetView) -> bool {
    &&& view.usable::<MutationRecord<L>>()
    &&& view.usable::<PayloadRecord<L>>()
}

/// The bytes of `count` chunks, when each is the payload frame it should be.
pub open spec fn chunks_at(view: FleetView, payload: PayloadRef, kind: u8, count: nat) -> Option<
    Seq<u8>,
>
    decreases count,
{
    if count == 0 {
        Some(Seq::empty())
    } else {
        match chunks_at(view, payload, kind, (count - 1) as nat) {
            None => None,
            Some(before) => match chunk_at(view, payload, kind, (count - 1) as int) {
                Some(chunk) => Some(before + chunk),
                None => None,
            },
        }
    }
}

/// The bytes of one chunk, when it is the payload frame it should be.
pub open spec fn chunk_at(view: FleetView, payload: PayloadRef, kind: u8, offset: int) -> Option<
    Seq<u8>,
> {
    let id = NetId64::of(
        kind,
        node_of(payload.first_id.0),
        (counter_of(payload.first_id.0) + offset) as u64,
    );
    if !view.rings.contains_key(kind) {
        None
    } else {
        match view.rings[kind].lookup(id) {
            Some(frame) => if frame.kind == FRAME_KIND_PAYLOAD && frame.ver
                == payload.payload_version {
                Some(frame.payload)
            } else {
                None
            },
            None => None,
        }
    }
}

/// The value that an address names, when all of it is still there.
pub open spec fn value_at<L: CacheLayout>(view: FleetView, payload: PayloadRef) -> Option<Seq<u8>> {
    if kind_of(payload.first_id.0) != L::PAYLOAD_RING_KIND || payload.chunk_count == 0
        || payload.chunk_count > L::PAYLOAD_RING_CAPACITY || payload.value_len > value_limit::<
        L,
    >() {
        None
    } else {
        match chunks_at(view, payload, L::PAYLOAD_RING_KIND, payload.chunk_count as nat) {
            Some(value) => if value.len() == payload.value_len {
                Some(value)
            } else {
                None
            },
            None => None,
        }
    }
}

proof fn lemma_chunks_missing(view: FleetView, payload: PayloadRef, kind: u8, count: nat, more: nat)
    requires
        chunks_at(view, payload, kind, count) is None,
        count <= more,
    ensures
        chunks_at(view, payload, kind, more) is None,
    decreases more - count,
{
    if count < more {
        lemma_chunks_missing(view, payload, kind, count, (more - 1) as nat);
    }
}

proof fn lemma_chunks_grow(view: FleetView, payload: PayloadRef, kind: u8, count: nat, more: nat)
    requires
        chunks_at(view, payload, kind, count) is Some,
        chunks_at(view, payload, kind, more) is Some,
        count <= more,
    ensures
        chunks_at(view, payload, kind, count)->0.len() <= chunks_at(
            view,
            payload,
            kind,
            more,
        )->0.len(),
    decreases more - count,
{
    if count < more {
        lemma_chunks_grow(view, payload, kind, count, (more - 1) as nat);
    }
}

/// Raw mutation and payload transport for one cache layout.
pub struct CacheTransport<L: CacheLayout> {
    layout: PhantomData<L>,
}

impl<L: CacheLayout> CacheTransport<L> {
    /// The layout was found usable.
    pub open spec fn wf(&self) -> bool {
        layout_fault::<L>() is None
    }

    /// A transport for a usable layout.
    pub fn new() -> (transport: Result<CacheTransport<L>, Error>)
        ensures
            match layout_fault::<L>() {
                Some(fault) => transport matches Err(Error::InvalidLayout(message)) && message@
                    == fault,
                None => transport is Ok && transport->Ok_0.wf(),
            },
    {
        match validate::<L>() {
            Ok(_) => Ok(CacheTransport { layout: PhantomData }),
            Err(error) => Err(error),
        }
    }

    /// A cursor behind every mutation known now.
    pub fn cursor_at_head<F: FleetRings>(&self, fleet: &F) -> (cursor: CacheMutationCursor)
        requires
            fleet.sound(),
            ready::<L>(fleet.held()),
        ensures
            cursor@ == (LaneCursorView {
                positions: lane_heads(fleet.held().ring::<MutationRecord<L>>()),
                initial: 0,
            }),
            cursor@.fits(fleet.held().capacity),
    {
        proof {
            lemma_records::<L>();
        }
        CacheMutationCursor { inner: fleet.lane_cursor_at_head::<MutationRecord<L>>() }
    }

    /// A cursor before every retained mutation.
    pub fn cursor_from_start<F: FleetRings>(&self, fleet: &F) -> (cursor: CacheMutationCursor)
        ensures
            cursor@ == (LaneCursorView {
                positions: Seq::new(fleet.held().capacity as nat, |i: int| 0u64),
                initial: 0,
            }),
    {
        proof {
            lemma_records::<L>();
        }
        CacheMutationCursor { inner: fleet.lane_cursor_from_start::<MutationRecord<L>>() }
    }

    /// The longest store name.
    pub fn max_store_len(&self) -> (max: usize)
        ensures
            max == store_limit::<L>(),
    {
        protocol::max_store_len::<L>()
    }

    /// The longest key beside a store name.
    pub fn max_key_len(&self, store: &[u8]) -> (max: usize)
        ensures
            max == key_limit::<L>(store@.len() as int),
    {
        protocol::max_key_len::<L>(store.len())
    }

    /// The largest value.
    pub fn max_value_len(&self) -> (max: usize)
        ensures
            max == value_limit::<L>(),
    {
        match L::PAYLOAD_RING_CAPACITY.checked_mul(L::PAYLOAD_RING_PAYLOAD_CAPACITY) {
            Some(max) => max,
            None => usize::MAX,
        }
    }

    /// Checks a store name.
    pub fn validate_store(&self, store: &[u8]) -> (valid: Result<(), Error>)
        ensures
            match store_fault::<L>(store@.len()) {
                Some(error) => valid == Err::<(), Error>(error),
                None => valid is Ok,
            },
    {
        protocol::validate_store::<L>(store)
    }

    /// Checks a store name and a key.
    pub fn validate_key(&self, store: &[u8], key: &[u8]) -> (valid: Result<(), Error>)
        ensures
            match key_fault::<L>(store@.len(), key@.len()) {
                Some(error) => valid == Err::<(), Error>(error),
                None => valid is Ok,
            },
    {
        protocol::validate_key::<L>(store, key)
    }

    /// Checks a store name, a key and a value.
    pub fn validate_put(&self, store: &[u8], key: &[u8], value: &[u8]) -> (valid: Result<
        (),
        Error,
    >)
        ensures
            match put_fault::<L>(store@.len(), key@.len(), value@.len()) {
                Some(error) => valid == Err::<(), Error>(error),
                None => valid is Ok,
            },
    {
        match self.validate_key(store, key) {
            Ok(_) => {},
            Err(error) => {
                return Err(error);
            },
        }
        let max: usize = self.max_value_len();
        if value.len() > max {
            return Err(Error::ValueTooLarge { value_len: value.len(), max });
        }
        Ok(())
    }

    /// The sequence of the last mutation.
    pub fn current_revision_sequence<F: FleetRings>(&self, fleet: &F) -> (sequence: u64)
        requires
            fleet.sound(),
            ready::<L>(fleet.held()),
        ensures
            sequence == fleet.held().ring::<MutationRecord<L>>().version,
    {
        fleet.current_ring_version::<MutationRecord<L>>()
    }

    fn publish_mutation<F: FleetRings>(
        &self,
        fleet: &mut F,
        frame_kind: u8,
        record: Bytes,
    ) -> (revision: CacheRevision)
        requires
            old(fleet).sound(),
            ready::<L>(old(fleet).held()),
            self.wf(),
            old(fleet).held().ring::<MutationRecord<L>>().version < u64::MAX,
            octets(record).len() <= L::MUTATION_RING_PAYLOAD_CAPACITY,
        ensures
            revision == next_revision::<L>(old(fleet).held()),
            final(fleet).held() == recorded::<L>(old(fleet).held(), frame_kind, octets(record)),
            final(fleet).sound(),
            ready::<L>(final(fleet).held()),
    {
        proof {
            lemma_records::<L>();
            fleet.lemma_sound();
            lemma_ring_fits::<MutationRecord<L>>(fleet.held());
        }
        let ghost before = fleet.held();
        let sequence: u64 = fleet.next_ring_version::<MutationRecord<L>>();
        assert(fleet.held() == versioned::<MutationRecord<L>>(before));
        let mutation_id = fleet.publish_notified::<MutationRecord<L>>(frame_kind, sequence, record);
        CacheRevision { sequence, mutation_id }
    }

    /// Publishes the chunks of a value, and then the mutation that makes them
    /// visible.
    pub fn publish_put<F: FleetRings>(
        &self,
        fleet: &mut F,
        store: &[u8],
        key: &[u8],
        value: &[u8],
        ttl_millis: Option<u128>,
        now_ms: u64,
    ) -> (mutation: Result<CacheMutation, Error>)
        requires
            self.wf(),
            old(fleet).sound(),
            ready::<L>(old(fleet).held()),
            old(fleet).held().ring::<MutationRecord<L>>().version < u64::MAX,
            old(fleet).held().ring::<PayloadRecord<L>>().version < u64::MAX,
        ensures
            final(fleet).sound(),
            ready::<L>(final(fleet).held()),
            match put_fault::<L>(store@.len(), key@.len(), value@.len()) {
                Some(error) => mutation == Err::<CacheMutation, Error>(error) && final(fleet).held()
                    == old(fleet).held(),
                None => {
                    let before = old(fleet).held();
                    let payload = next_payload::<L>(before, value@);
                    let expires_at_ms = deadline(now_ms, ttl_millis);
                    &&& mutation is Ok
                    &&& mutation->Ok_0@ == (MutationView::Put {
                        store: store@,
                        key: key@,
                        revision: next_revision::<L>(stored::<L>(before, value@)),
                        expires_at_ms,
                        payload,
                    })
                    &&& final(fleet).held() == recorded::<L>(
                        stored::<L>(before, value@),
                        FRAME_KIND_PUT,
                        mutation_record(store@, key@, deadline_field(expires_at_ms), payload),
                    )
                },
            },
    {
        match self.validate_put(store, key, value) {
            Ok(_) => {},
            Err(error) => {
                return Err(error);
            },
        }
        let ghost before = fleet.held();
        let ghost size = L::PAYLOAD_RING_PAYLOAD_CAPACITY as int;
        proof {
            lemma_records::<L>();
            fleet.lemma_sound();
            lemma_ring_fits::<PayloadRecord<L>>(before);
            lemma_split_fits(value@, size, L::PAYLOAD_RING_CAPACITY as int);
        }
        let payload_version: u64 = fleet.next_ring_version::<PayloadRecord<L>>();
        let ghost after = versioned::<PayloadRecord<L>>(before);
        assert(fleet.held() == after);
        let chunks: Vec<Bytes> = split_payload::<L>(value);
        proof {
            fleet.lemma_sound();
            lemma_ring_fits::<PayloadRecord<L>>(after);
            assert(chunks@.len() == all_octets(chunks@).len());
            assert forall|i: int| 0 <= i < chunks@.len() implies octets(
                #[trigger] chunks@[i],
            ).len() <= size by {
                assert(all_octets(chunks@)[i] == octets(chunks@[i]));
            }
        }
        let ids = fleet.publish_batch::<PayloadRecord<L>>(
            FRAME_KIND_PAYLOAD,
            payload_version,
            chunks,
        );
        assert(fleet.held() == stored::<L>(before, value@));
        let payload = PayloadRef {
            first_id: ids[0],
            payload_version,
            chunk_count: ids.len() as u32,
            value_len: value.len() as u64,
        };
        assert(payload == next_payload::<L>(before, value@));
        let expires_at_ms: Option<u64> = match ttl_millis {
            Some(millis) => Some(now_ms.saturating_add(duration_ms(millis))),
            None => None,
        };
        proof {
            fleet.lemma_sound();
            lemma_ring_fits::<MutationRecord<L>>(fleet.held());
        }
        match protocol::encode_put::<L>(store, key, expires_at_ms, payload) {
            Ok(encoded) => {
                assert(fleet.held().ring::<MutationRecord<L>>() == before.ring::<MutationRecord<L>>());
                assert(octets(encoded).len() == 41 + store@.len() + key@.len());
                let revision = self.publish_mutation(fleet, FRAME_KIND_PUT, encoded);
                Ok(
                    CacheMutation::Put {
                        store: octets::copy_of(store),
                        key: octets::copy_of(key),
                        revision,
                        expires_at_ms,
                        payload,
                    },
                )
            },
            Err(error) => Err(error),
        }
    }

    /// Publishes the deletion of a key.
    pub fn publish_delete<F: FleetRings>(
        &self,
        fleet: &mut F,
        store: &[u8],
        key: &[u8],
    ) -> (mutation: Result<CacheMutation, Error>)
        requires
            self.wf(),
            old(fleet).sound(),
            ready::<L>(old(fleet).held()),
            old(fleet).held().ring::<MutationRecord<L>>().version < u64::MAX,
        ensures
            final(fleet).sound(),
            ready::<L>(final(fleet).held()),
            match key_fault::<L>(store@.len(), key@.len()) {
                Some(error) => mutation == Err::<CacheMutation, Error>(error) && final(fleet).held()
                    == old(fleet).held(),
                None => {
                    &&& mutation is Ok
                    &&& mutation->Ok_0@ == (MutationView::Delete {
                        store: store@,
                        key: key@,
                        revision: next_revision::<L>(old(fleet).held()),
                    })
                    &&& final(fleet).held() == recorded::<L>(
                        old(fleet).held(),
                        FRAME_KIND_DELETE,
                        mutation_record(store@, key@, 0, no_payload()),
                    )
                },
            },
    {
        match protocol::encode_delete::<L>(store, key) {
            Ok(encoded) => {
                assert(octets(encoded).len() == 41 + store@.len() + key@.len());
                let revision = self.publish_mutation(fleet, FRAME_KIND_DELETE, encoded);
                Ok(
                    CacheMutation::Delete {
                        store: octets::copy_of(store),
                        key: octets::copy_of(key),
                        revision,
                    },
                )
            },
            Err(error) => Err(error),
        }
    }

    /// Publishes the reset of a store.
    pub fn publish_reset<F: FleetRings>(&self, fleet: &mut F, store: &[u8]) -> (mutation: Result<
        CacheMutation,
        Error,
    >)
        requires
            self.wf(),
            old(fleet).sound(),
            ready::<L>(old(fleet).held()),
            old(fleet).held().ring::<MutationRecord<L>>().version < u64::MAX,
        ensures
            final(fleet).sound(),
            ready::<L>(final(fleet).held()),
            match store_fault::<L>(store@.len()) {
                Some(error) => mutation == Err::<CacheMutation, Error>(error) && final(fleet).held()
                    == old(fleet).held(),
                None => {
                    &&& mutation is Ok
                    &&& mutation->Ok_0@ == (MutationView::Reset {
                        store: store@,
                        revision: next_revision::<L>(old(fleet).held()),
                    })
                    &&& final(fleet).held() == recorded::<L>(
                        old(fleet).held(),
                        FRAME_KIND_RESET,
                        mutation_record(store@, Seq::empty(), 0, no_payload()),
                    )
                },
            },
    {
        match protocol::encode_reset::<L>(store) {
            Ok(encoded) => {
                assert(octets(encoded).len() == 41 + store@.len());
                let revision = self.publish_mutation(fleet, FRAME_KIND_RESET, encoded);
                Ok(CacheMutation::Reset { store: octets::copy_of(store), revision })
            },
            Err(error) => Err(error),
        }
    }

    /// Reads every visible mutation from the cursor on, in the order of the
    /// revisions. Frames that are no mutations are counted.
    pub fn poll<F: FleetRings>(
        &self,
        fleet: &F,
        cursor: &mut CacheMutationCursor,
    ) -> (poll: CacheMutationPoll)
        requires
            fleet.sound(),
            ready::<L>(fleet.held()),
            old(cursor)@.fits(fleet.held().capacity),
        ensures
            mutation_views(poll.mutations@) == visible_mutations::<L>(fleet.held(), old(cursor)@),
            poll.malformed == visible_malformed::<L>(fleet.held(), old(cursor)@),
            poll.loss == visible_loss::<L>(fleet.held(), old(cursor)@),
            final(cursor)@ == (LaneCursorView {
                positions: lane_heads(fleet.held().ring::<MutationRecord<L>>()),
                initial: old(cursor)@.initial,
            }),
            final(cursor)@.fits(fleet.held().capacity),
    {
        proof {
            lemma_records::<L>();
        }
        let ghost positions = cursor@.begin(fleet.held().capacity);
        let raw = fleet.poll_lanes::<MutationRecord<L>>(&mut cursor.inner);
        let ghost frames = frame_views(raw.frames@);
        let mut mutations: Vec<CacheMutation> = Vec::new();
        let mut malformed: u64 = 0;
        let mut index: usize = 0;
        assert(frames.subrange(0, 0) =~= Seq::<FrameView>::empty());
        assert(mutation_views(mutations@) =~= Seq::<MutationView>::empty());
        while index < raw.frames.len()
            invariant
                index <= raw.frames@.len(),
                frames == frame_views(raw.frames@),
                mutation_views(mutations@) == decode_all(frames.subrange(0, index as int)),
                malformed == index - mutations@.len(),
            decreases raw.frames@.len() - index,
        {
            let ghost prefix = frames.subrange(0, index + 1);
            assert(prefix.drop_last() =~= frames.subrange(0, index as int));
            assert(prefix.last() == raw.frames@[index as int]@);
            let ghost before = mutations@;
            match decode(&raw.frames[index]) {
                Some(mutation) => {
                    mutations.push(mutation);
                    assert(mutation_views(mutations@) =~= mutation_views(before).push(mutation@));
                },
                None => {
                    malformed = malformed + 1;
                },
            }
            index = index + 1;
        }
        proof {
            assert(frames.subrange(0, frames.len() as int) =~= frames);
            assert(mutation_views(mutations@).len() == mutations@.len());
            assert(frames.len() == raw.frames@.len());
        }
        let sorted = sort_by_revision(mutations);
        CacheMutationPoll { mutations: sorted, loss: raw.loss, malformed }
    }

    /// The value that an address names. It is never put together from frames
    /// that merely occupy the same slots.
    pub fn read_payload<F: FleetRings>(
        &self,
        fleet: &F,
        payload: PayloadRef,
    ) -> (value: Option<Bytes>)
        requires
            fleet.sound(),
        ensures
            match value {
                Some(value) => value_at::<L>(fleet.held(), payload) == Some(octets(value)),
                None => value_at::<L>(fleet.held(), payload) is None,
            },
    {
        if payload.first_id.kind() != L::PAYLOAD_RING_KIND || payload.chunk_count == 0
            || payload.chunk_count as u64 > L::PAYLOAD_RING_CAPACITY as u64 || payload.value_len
            > self.max_value_len() as u64 {
            return None;
        }
        let expected_len: usize = payload.value_len as usize;
        let kind: u8 = L::PAYLOAD_RING_KIND;
        let ghost total = payload.chunk_count as nat;
        let mut value: Vec<u8> = Vec::new();
        let mut offset: u64 = 0;
        assert(value@ =~= Seq::<u8>::empty());
        while offset < payload.chunk_count as u64
            invariant
                fleet.sound(),
                offset <= payload.chunk_count,
                total == payload.chunk_count,
                kind == L::PAYLOAD_RING_KIND,
                kind_of(payload.first_id.0) == L::PAYLOAD_RING_KIND,
                payload.chunk_count != 0,
                payload.chunk_count <= L::PAYLOAD_RING_CAPACITY,
                payload.value_len <= value_limit::<L>(),
                expected_len == payload.value_len,
                chunks_at(fleet.held(), payload, kind, offset as nat) == Some(value@),
                value@.len() <= expected_len,
            decreases payload.chunk_count - offset,
        {
            let counter: u64 = payload.first_id.counter() + offset;
            let id = NetId64::make(kind, payload.first_id.node(), counter);
            proof {
                crate::id::lemma_pack(kind, node_of(payload.first_id.0), counter);
            }
            let found = fleet.read(id);
            let frame = match found {
                Some(frame) => frame,
                None => {
                    proof {
                        lemma_chunks_missing(
                            fleet.held(),
                            payload,
                            kind,
                            (offset + 1) as nat,
                            total,
                        );
                    }
                    return None;
                },
            };
            if frame.kind != FRAME_KIND_PAYLOAD || frame.ver != payload.payload_version {
                proof {
                    lemma_chunks_missing(fleet.held(), payload, kind, (offset + 1) as nat, total);
                }
                return None;
            }
            let ghost before = value@;
            let mut chunk: Vec<u8> = crate::codec::to_vec(octets::as_slice(&frame.payload));
            value.append(&mut chunk);
            assert(value@ =~= before + frame@.payload);
            if value.len() > expected_len {
                proof {
                    if chunks_at(fleet.held(), payload, kind, total) is Some {
                        lemma_chunks_grow(fleet.held(), payload, kind, (offset + 1) as nat, total);
                    }
                }
                return None;
            }
            offset = offset + 1;
        }
        if value.len() == expected_len {
            Some(octets::from_vec(value))
        } else {
            None
        }
    }

    /// Clears both rings.
    pub fn reset_rings<F: FleetRings>(&self, fleet: &mut F)
        requires
            self.wf(),
            old(fleet).sound(),
            ready::<L>(old(fleet).held()),
        ensures
            final(fleet).held() == emptied::<L>(old(fleet).held()),
            final(fleet).sound(),
            ready::<L>(final(fleet).held()),
    {
        proof {
            lemma_records::<L>();
        }
        fleet.reset_ring::<PayloadRecord<L>>();
        fleet.reset_ring::<MutationRecord<L>>();
    }
}

/// The handle after both rings of a layout were cleared.
pub open spec fn emptied<L: CacheLayout>(view: FleetView) -> FleetView {
    view.with_ring::<PayloadRecord<L>>(
        RingView::blank(
            L::PAYLOAD_RING_KIND,
            declared::<PayloadRecord<L>>(),
            view.capacity as nat,
        ),
    ).with_ring::<MutationRecord<L>>(
        RingView::blank(
            L::MUTATION_RING_KIND,
            declared::<MutationRecord<L>>(),
            view.capacity as nat,
        ),
    )
}

/// The frames that are visible from a cursor on, lane after lane.
pub open spec fn visible_frames<L: CacheLayout>(
    view: FleetView,
    cursor: LaneCursorView,
) -> Seq<FrameView> {
    let positions = cursor.begin(view.capacity);
    lanes_frames(view.ring::<MutationRecord<L>>(), positions, positions.len())
}

/// The mutations that are visible from a cursor on, by revision.
pub open spec fn visible_mutations<L: CacheLayout>(
    view: FleetView,
    cursor: LaneCursorView,
) -> Seq<MutationView> {
    by_revision(decode_all(visible_frames::<L>(view, cursor)))
}

/// How many visible frames are no mutations.
pub open spec fn visible_malformed<L: CacheLayout>(view: FleetView, cursor: LaneCursorView) -> int {
    let frames = visible_frames::<L>(view, cursor);
    frames.len() - decode_all(frames).len()
}

/// The counters that a poll from a cursor skips; the sums stop at the largest
/// `u64`.
pub open spec fn visible_loss<L: CacheLayout>(view: FleetView, cursor: LaneCursorView) -> RingLoss {
    let ring = view.ring::<MutationRecord<L>>();
    let positions = cursor.begin(view.capacity);
    RingLoss {
        overwritten: min_of(
            lanes_overwritten(ring, positions, positions.len()),
            u64::MAX as int,
        ) as u64,
        unavailable: min_of(
            lanes_unavailable(ring, positions, positions.len()),
            u64::MAX as int,
        ) as u64,
    }
}

} // verus!
