//! The bounded local part of one cache store.
//!
//! The local cache keeps, per key, what the newest mutation it has seen left
//! there. What an evicted slot knew is not forgotten: its revision raises a
//! floor, and no mutation at or below the floor is taken any more.
use bytes::Bytes;
use lru::LruCache;
use vstd::prelude::*;

use crate::cache::protocol::{CacheMutation, CacheRevision, MutationView};
use crate::cache::resident::{
    bound, clear, distinct, entries, has_key, lemma_place, lemma_pushed, lemma_to_front,
    lemma_without, new_map, peek, place_of, pop, push, pushed, resident, slot_of, to_front, touch,
    without, CacheEntry, EntryView, Item, LocalSlot, SlotView,
};
use crate::codec::{same_bytes, to_vec};
use crate::numbers::{max_of, max_u64};
use crate::octets;
use crate::octets::octets;

verus! {

/// Result of consulting only the local part of a store.
#[derive(Debug, PartialEq, Eq)]
pub enum CacheRead {
    Hit(CacheEntry),
    /// The key is not resident. A higher layer may consult its backing store.
    Miss,
    /// Mutation history was lost or malformed. Nothing is served until a
    /// coherent state has been established again.
    ResyncRequired,
}

/// What a read says.
pub enum CacheReadView {
    Hit(EntryView),
    Miss,
    ResyncRequired,
}

impl View for CacheRead {
    type V = CacheReadView;

    open spec fn view(&self) -> CacheReadView {
        match self {
            CacheRead::Hit(entry) => CacheReadView::Hit(entry@),
            CacheRead::Miss => CacheReadView::Miss,
            CacheRead::ResyncRequired => CacheReadView::ResyncRequired,
        }
    }
}

/// What became of a mutation.
pub enum ApplyOutcome {
    Applied,
    Ignored,
    PayloadUnavailable { key: Bytes },
}

/// What an outcome says.
pub enum OutcomeView {
    Applied,
    Ignored,
    PayloadUnavailable { key: Seq<u8> },
}

impl View for ApplyOutcome {
    type V = OutcomeView;

    open spec fn view(&self) -> OutcomeView {
        match self {
            ApplyOutcome::Applied => OutcomeView::Applied,
            ApplyOutcome::Ignored => OutcomeView::Ignored,
            ApplyOutcome::PayloadUnavailable { key } => OutcomeView::PayloadUnavailable {
                key: octets(*key),
            },
        }
    }
}

/// The items that reflect mutations above a floor.
pub open spec fn fresh(items: Seq<Item>, floor: u64) -> Seq<Item>
    decreases items.len(),
{
    if items.len() == 0 {
        Seq::empty()
    } else if items.last().1.revision().sequence <= floor {
        fresh(items.drop_last(), floor)
    } else {
        fresh(items.drop_last(), floor).push(items.last())
    }
}

/// The keys of the items at or below a floor.
spec fn stale_keys(items: Seq<Item>, floor: u64) -> Seq<Seq<u8>>
    decreases items.len(),
{
    if items.len() == 0 {
        Seq::empty()
    } else if items.last().1.revision().sequence <= floor {
        stale_keys(items.drop_last(), floor).push(items.last().0)
    } else {
        stale_keys(items.drop_last(), floor)
    }
}

/// The items without each of these keys, removed one after the other.
spec fn without_all(items: Seq<Item>, keys: Seq<Seq<u8>>) -> Seq<Item>
    decreases keys.len(),
{
    if keys.len() == 0 {
        items
    } else {
        without(without_all(items, keys.drop_last()), keys.last())
    }
}

/// The highest sequence that an item reflects.
pub open spec fn highest(items: Seq<Item>) -> Option<u64>
    decreases items.len(),
{
    if items.len() == 0 {
        None
    } else {
        let last = items.last().1.revision().sequence;
        match highest(items.drop_last()) {
            Some(before) => Some(max_of(before as int, last as int) as u64),
            None => Some(last),
        }
    }
}

/// How many items hold a value.
pub open spec fn present(items: Seq<Item>) -> nat
    decreases items.len(),
{
    if items.len() == 0 {
        0
    } else if items.last().1 is Present {
        present(items.drop_last()) + 1
    } else {
        present(items.drop_last())
    }
}

/// Every item of the fresh ones is one of the items, above the floor; and every
/// item above the floor stays.
pub proof fn lemma_fresh(items: Seq<Item>, floor: u64, key: Seq<u8>)
    requires
        distinct(items),
    ensures
        distinct(fresh(items, floor)),
        fresh(items, floor).len() <= items.len(),
        has_key(fresh(items, floor), key) == (has_key(items, key) && slot_of(
            items,
            key,
        ).revision().sequence > floor),
        has_key(fresh(items, floor), key) ==> slot_of(fresh(items, floor), key) == slot_of(
            items,
            key,
        ),
        forall|i: int|
            0 <= i < fresh(items, floor).len() ==> (#[trigger] fresh(
                items,
                floor,
            )[i]).1.revision().sequence > floor,
    decreases items.len(),
{
    if items.len() > 0 {
        let shorter = items.drop_last();
        let last = items.last();
        lemma_fresh(shorter, floor, key);
        lemma_fresh(shorter, floor, last.0);
        assert(!has_key(shorter, last.0)) by {
            assert forall|i: int| 0 <= i < shorter.len() implies (#[trigger] shorter[i]).0
                != last.0 by {
                assert(items[i].0 != items[items.len() - 1].0);
            }
        }
        if key == last.0 {
            lemma_place(items, key, items.len() - 1);
        } else if has_key(shorter, key) {
            let at = place_of(shorter, key);
            assert(items[at] == shorter[at]);
            lemma_place(items, key, at);
        } else {
            assert forall|i: int| 0 <= i < items.len() implies (#[trigger] items[i]).0 != key by {
                if i < shorter.len() {
                    assert(shorter[i] == items[i]);
                }
            }
        }
        let kept = fresh(shorter, floor);
        let after = fresh(items, floor);
        if last.1.revision().sequence > floor {
            assert forall|i: int, j: int|
                0 <= i < after.len() && 0 <= j < after.len() && i != j implies (
            #[trigger] after[i]).0 != (#[trigger] after[j]).0 by {
                if i < kept.len() && j < kept.len() {
                    assert(after[i] == kept[i]);
                    assert(after[j] == kept[j]);
                } else if i < kept.len() {
                    assert(after[i] == kept[i]);
                    assert(after[j] == last);
                } else {
                    assert(after[j] == kept[j]);
                    assert(after[i] == last);
                }
            }
            if key == last.0 {
                assert(after[kept.len() as int] == last);
                lemma_place(after, key, kept.len() as int);
            } else if has_key(kept, key) {
                let at = place_of(kept, key);
                assert(after[at] == kept[at]);
                lemma_place(after, key, at);
            } else {
                assert forall|i: int| 0 <= i < after.len() implies (#[trigger] after[i]).0 != key by {
                    if i < kept.len() {
                        assert(kept[i] == after[i]);
                    }
                }
            }
            assert forall|i: int| 0 <= i < after.len() implies (
            #[trigger] after[i]).1.revision().sequence > floor by {
                if i < kept.len() {
                    assert(after[i] == kept[i]);
                }
            }
        }
    }
}

proof fn lemma_without_pushed(items: Seq<Item>, item: Item, key: Seq<u8>)
    requires
        distinct(items.push(item)),
        item.0 != key,
    ensures
        without(items.push(item), key) == without(items, key).push(item),
{
    let longer = items.push(item);
    assert(distinct(items)) by {
        assert forall|i: int, j: int|
            0 <= i < items.len() && 0 <= j < items.len() && i != j implies (#[trigger] items[i]).0
            != (#[trigger] items[j]).0 by {
            assert(longer[i] == items[i]);
            assert(longer[j] == items[j]);
        }
    }
    if has_key(items, key) {
        let at = place_of(items, key);
        assert(longer[at] == items[at]);
        lemma_place(longer, key, at);
        assert(longer.remove(at) =~= items.remove(at).push(item));
    } else {
        assert forall|i: int| 0 <= i < longer.len() implies (#[trigger] longer[i]).0 != key by {
            if i < items.len() {
                assert(items[i] == longer[i]);
            }
        }
    }
}

proof fn lemma_without_all_pushed(items: Seq<Item>, item: Item, keys: Seq<Seq<u8>>)
    requires
        distinct(items.push(item)),
        forall|i: int| 0 <= i < keys.len() ==> #[trigger] keys[i] != item.0,
    ensures
        without_all(items.push(item), keys) == without_all(items, keys).push(item),
        distinct(without_all(items.push(item), keys)),
    decreases keys.len(),
{
    if keys.len() > 0 {
        let shorter = keys.drop_last();
        assert forall|i: int| 0 <= i < shorter.len() implies #[trigger] shorter[i] != item.0 by {
            assert(shorter[i] == keys[i]);
        }
        lemma_without_all_pushed(items, item, shorter);
        let rest = without_all(items, shorter);
        assert(keys.last() == keys[keys.len() - 1]);
        lemma_without_pushed(rest, item, keys.last());
        lemma_without(rest.push(item), keys.last(), item.0);
    }
}

proof fn lemma_stale_keys(items: Seq<Item>, floor: u64)
    ensures
        stale_keys(items, floor).len() <= items.len(),
        forall|i: int|
            0 <= i < stale_keys(items, floor).len() ==> has_key(
                items,
                #[trigger] stale_keys(items, floor)[i],
            ),
    decreases items.len(),
{
    if items.len() > 0 {
        let shorter = items.drop_last();
        lemma_stale_keys(shorter, floor);
        let keys = stale_keys(items, floor);
        assert forall|i: int| 0 <= i < keys.len() implies has_key(items, #[trigger] keys[i]) by {
            if i < stale_keys(shorter, floor).len() {
                let key = stale_keys(shorter, floor)[i];
                assert(keys[i] == key);
                let at = place_of(shorter, key);
                assert(items[at] == shorter[at]);
            } else {
                assert(items[items.len() - 1].0 == keys[i]);
            }
        }
    }
}

/// Removing every stale key one after the other leaves the fresh items.
proof fn lemma_removed_stale(items: Seq<Item>, floor: u64)
    requires
        distinct(items),
    ensures
        without_all(items, stale_keys(items, floor)) == fresh(items, floor),
    decreases items.len(),
{
    if items.len() > 0 {
        let shorter = items.drop_last();
        let last = items.last();
        assert(items == shorter.push(last));
        assert(distinct(shorter)) by {
            assert forall|i: int, j: int|
                0 <= i < shorter.len() && 0 <= j < shorter.len() && i != j implies (
            #[trigger] shorter[i]).0 != (#[trigger] shorter[j]).0 by {
                assert(items[i].0 != items[j].0);
            }
        }
        lemma_removed_stale(shorter, floor);
        lemma_stale_keys(shorter, floor);
        let keys = stale_keys(shorter, floor);
        assert forall|i: int| 0 <= i < keys.len() implies #[trigger] keys[i] != last.0 by {
            let at = place_of(shorter, keys[i]);
            assert(items[at].0 != items[items.len() - 1].0);
        }
        lemma_without_all_pushed(shorter, last, keys);
        if last.1.revision().sequence <= floor {
            let kept = fresh(shorter, floor);
            let all = stale_keys(items, floor);
            assert(all.drop_last() =~= keys);
            let longer = kept.push(last);
            assert(longer[kept.len() as int] == last);
            lemma_place(longer, last.0, kept.len() as int);
            assert(longer.remove(kept.len() as int) =~= kept);
        }
    } else {
        assert(stale_keys(items, floor) =~= Seq::<Seq<u8>>::empty());
        assert(items =~= Seq::<Item>::empty());
    }
}

/// What the local part of a store holds.
#[verifier::ext_equal]
pub struct LocalView {
    /// The slots, the most recently used first.
    pub items: Seq<Item>,
    /// How many slots there are room for.
    pub limit: nat,
    /// The sequence up to which nothing is taken any more.
    pub floor: Option<u64>,
    /// False after mutation history was lost.
    pub coherent: bool,
}

impl LocalView {
    /// No key twice, and no more slots than there is room for.
    pub open spec fn wf(self) -> bool {
        &&& self.limit > 0
        &&& distinct(self.items)
        &&& self.items.len() <= self.limit
        &&& self.floor matches Some(floor) ==> forall|i: int|
            0 <= i < self.items.len() ==> (#[trigger] self.items[i]).1.revision().sequence > floor
    }

    /// True when a mutation of this revision is above the floor.
    pub open spec fn accepts(self, revision: CacheRevision) -> bool {
        match self.floor {
            Some(floor) => revision.sequence > floor,
            None => true,
        }
    }

    /// The floor raised to at least this sequence.
    pub open spec fn raised_floor(self, sequence: u64) -> u64 {
        match self.floor {
            Some(floor) => max_of(floor as int, sequence as int) as u64,
            None => sequence,
        }
    }

    /// The store after its floor was raised: what is not above it is dropped.
    pub open spec fn raise(self, sequence: u64) -> LocalView {
        let floor = self.raised_floor(sequence);
        LocalView { items: fresh(self.items, floor), floor: Some(floor), ..self }
    }

    /// True when a key's slot is at least as new as this revision.
    pub open spec fn outdates(self, key: Seq<u8>, revision: CacheRevision) -> bool {
        has_key(self.items, key) && !slot_of(self.items, key).revision().before(revision)
    }

    /// The store after a slot was put for a key. A slot that is not newer than
    /// the key's own changes nothing. Where a full store evicts another key's
    /// slot, its sequence raises the floor.
    pub open spec fn put(self, key: Seq<u8>, slot: SlotView) -> LocalView {
        if self.outdates(key, slot.revision()) {
            self
        } else {
            let after = LocalView { items: pushed(self.items, self.limit, key, slot), ..self };
            if !has_key(self.items, key) && self.items.len() == self.limit {
                after.raise(self.items.last().1.revision().sequence)
            } else {
                after
            }
        }
    }

    /// True when putting a slot for a key leaves the key resident with it.
    pub open spec fn takes(self, key: Seq<u8>, slot: SlotView) -> bool {
        !self.outdates(key, slot.revision()) && has_key(self.put(key, slot).items, key)
    }

    /// The store after a mutation, whose value was found or not.
    pub open spec fn apply(self, mutation: MutationView, value: Option<Seq<u8>>) -> LocalView {
        if !self.accepts(mutation.revision()) {
            self
        } else {
            match mutation {
                MutationView::Put { key, revision, expires_at_ms, .. } => match value {
                    Some(value) => self.put(
                        key,
                        SlotView::Present(EntryView { value, revision, expires_at_ms }),
                    ),
                    None => self.put(key, SlotView::Missing { revision }),
                },
                MutationView::Delete { key, revision, .. } => self.put(
                    key,
                    SlotView::Missing { revision },
                ),
                MutationView::Reset { revision, .. } => self.raise(revision.sequence),
            }
        }
    }

    /// What becomes of a mutation, whose value was found or not.
    pub open spec fn outcome(self, mutation: MutationView, value: Option<Seq<u8>>) -> OutcomeView {
        if !self.accepts(mutation.revision()) {
            OutcomeView::Ignored
        } else {
            match mutation {
                MutationView::Put { key, revision, expires_at_ms, .. } => match value {
                    Some(value) => if self.takes(
                        key,
                        SlotView::Present(EntryView { value, revision, expires_at_ms }),
                    ) {
                        OutcomeView::Applied
                    } else {
                        OutcomeView::Ignored
                    },
                    None => if self.takes(key, SlotView::Missing { revision }) {
                        OutcomeView::PayloadUnavailable { key }
                    } else {
                        OutcomeView::Ignored
                    },
                },
                MutationView::Delete { key, revision, .. } => if self.takes(
                    key,
                    SlotView::Missing { revision },
                ) {
                    OutcomeView::Applied
                } else {
                    OutcomeView::Ignored
                },
                MutationView::Reset { .. } => OutcomeView::Applied,
            }
        }
    }

    /// What reading a key gives at a time.
    pub open spec fn read(self, key: Seq<u8>, now_ms: u64) -> CacheReadView {
        if !self.coherent {
            CacheReadView::ResyncRequired
        } else if !has_key(self.items, key) {
            CacheReadView::Miss
        } else {
            match slot_of(self.items, key) {
                SlotView::Present(entry) => if entry.expired(now_ms) {
                    CacheReadView::Miss
                } else {
                    CacheReadView::Hit(entry)
                },
                SlotView::Missing { .. } => CacheReadView::Miss,
            }
        }
    }

    /// The store after a key was read: its slot is the most recent one.
    pub open spec fn touched(self, key: Seq<u8>) -> LocalView {
        if self.coherent && has_key(self.items, key) {
            LocalView { items: to_front(self.items, place_of(self.items, key)), ..self }
        } else {
            self
        }
    }

    /// The store after mutation history was lost: nothing is served, and
    /// nothing at or below what was known is taken again.
    pub open spec fn lost(self) -> LocalView {
        let known = match highest(self.items) {
            Some(sequence) => Some(self.raised_floor(sequence)),
            None => self.floor,
        };
        LocalView { items: Seq::empty(), limit: self.limit, floor: known, coherent: false }
    }
}

/// Raising the floor makes a store well formed.
pub proof fn lemma_raise_wf(view: LocalView, sequence: u64)
    requires
        view.limit > 0,
        distinct(view.items),
        view.items.len() <= view.limit,
    ensures
        view.raise(sequence).wf(),
{
    lemma_fresh(view.items, view.raised_floor(sequence), Seq::empty());
}

/// Putting a slot above the floor keeps a store well formed.
pub proof fn lemma_put_wf(view: LocalView, key: Seq<u8>, slot: SlotView)
    requires
        view.wf(),
        view.accepts(slot.revision()),
    ensures
        view.put(key, slot).wf(),
{
    if !view.outdates(key, slot.revision()) {
        lemma_pushed(view.items, view.limit, key, slot, key);
        let after = LocalView { items: pushed(view.items, view.limit, key, slot), ..view };
        lemma_raise_wf(after, view.items.last().1.revision().sequence);
        if let Some(floor) = view.floor {
            assert forall|i: int| 0 <= i < after.items.len() implies (
            #[trigger] after.items[i]).1.revision().sequence > floor by {
                if i > 0 {
                    if has_key(view.items, key) {
                        let place = place_of(view.items, key);
                        if i - 1 < place {
                            assert(after.items[i] == view.items[i - 1]);
                        } else {
                            assert(after.items[i] == view.items[i]);
                        }
                    } else {
                        assert(after.items[i] == view.items[i - 1]);
                    }
                }
            }
        }
    }
}

/// The bounded local part of one store.
pub struct LocalCache {
    slots: LruCache<Vec<u8>, LocalSlot>,
    revision_floor: Option<u64>,
    coherent: bool,
}

impl View for LocalCache {
    type V = LocalView;

    closed spec fn view(&self) -> LocalView {
        LocalView {
            items: resident(self.slots),
            limit: bound(self.slots),
            floor: self.revision_floor,
            coherent: self.coherent,
        }
    }
}

impl LocalCache {
    /// An empty, coherent store with room for this many keys.
    pub fn new(capacity: usize) -> (local: LocalCache)
        requires
            0 < capacity <= isize::MAX / 64,
        ensures
            local@ == (LocalView {
                items: Seq::empty(),
                limit: capacity as nat,
                floor: None,
                coherent: true,
            }),
            local@.wf(),
    {
        let local = LocalCache { slots: new_map(capacity), revision_floor: None, coherent: true };
        assert(local@.items =~= Seq::<Item>::empty());
        local
    }

    /// Reads a key at a given time.
    pub fn read_at(&mut self, key: &[u8], now_ms: u64) -> (read: CacheRead)
        requires
            old(self)@.wf(),
        ensures
            read@ == old(self)@.read(key@, now_ms),
            final(self)@ == old(self)@.touched(key@),
            final(self)@.wf(),
    {
        if !self.coherent {
            return CacheRead::ResyncRequired;
        }
        let ghost before = self@;
        proof {
            if has_key(before.items, key@) {
                lemma_to_front(before.items, place_of(before.items, key@), key@);
            }
        }
        let copy: Option<CacheEntry> = match touch(&mut self.slots, key) {
            None => {
                return CacheRead::Miss;
            },
            Some(slot) => match slot {
                LocalSlot::Present(entry) => Some(entry.clone()),
                LocalSlot::Missing { .. } => None,
            },
        };
        proof {
            assert(self@ =~= before.touched(key@));
            let place = place_of(before.items, key@);
            assert forall|i: int| 0 <= i < self@.items.len() && self@.floor is Some implies (
            #[trigger] self@.items[i]).1.revision().sequence > self@.floor->0 by {
                if i == 0 {
                    assert(self@.items[i] == before.items[place]);
                } else if i <= place {
                    assert(self@.items[i] == before.items[i - 1]);
                } else {
                    assert(self@.items[i] == before.items[i]);
                }
            }
        }
        match copy {
            Some(entry) => {
                if !entry.is_expired_at(now_ms) {
                    CacheRead::Hit(entry)
                } else {
                    proof {
                        assert(self@.accepts(entry.revision)) by {
                            let at = place_of(self@.items, key@);
                            assert(self@.items[at].1.revision() == entry.revision);
                        }
                    }
                    let _ = self.put_slot(
                        to_vec(key),
                        LocalSlot::Missing { revision: entry.revision },
                    );
                    CacheRead::Miss
                }
            },
            None => CacheRead::Miss,
        }
    }

    /// How many keys have a value.
    pub fn len(&self) -> (count: usize)
        ensures
            count == present(self@.items),
    {
        let items = entries(&self.slots);
        let ghost view = self@.items;
        let mut count: usize = 0;
        let mut index: usize = 0;
        assert(view.subrange(0, 0) =~= Seq::<Item>::empty());
        while index < items.len()
            invariant
                index <= items@.len(),
                items@.len() == view.len(),
                forall|i: int|
                    0 <= i < items@.len() ==> {
                        &&& (#[trigger] items@[i]).0@ == view[i].0
                        &&& items@[i].1@ == view[i].1
                    },
                count == present(view.subrange(0, index as int)),
                count <= index,
            decreases items@.len() - index,
        {
            let ghost prefix = view.subrange(0, index + 1);
            assert(prefix.drop_last() =~= view.subrange(0, index as int));
            assert(prefix.last() == view[index as int]);
            assert(items@[index as int].1@ == view[index as int].1);
            match items[index].1 {
                LocalSlot::Present(_) => {
                    count = count + 1;
                },
                LocalSlot::Missing { .. } => {},
            }
            index = index + 1;
        }
        assert(view.subrange(0, view.len() as int) =~= view);
        count
    }

    /// True when no key has a value.
    pub fn is_empty(&self) -> (empty: bool)
        ensures
            empty == (present(self@.items) == 0),
    {
        self.len() == 0
    }

    /// False after mutation history was lost.
    pub fn is_coherent(&self) -> (coherent: bool)
        ensures
            coherent == self@.coherent,
    {
        self.coherent
    }

    /// Clears uncertain state after a loss of mutation history.
    pub fn require_resync(&mut self)
        requires
            old(self)@.wf(),
        ensures
            final(self)@ == old(self)@.lost(),
            final(self)@.wf(),
    {
        let ghost before = self@;
        let known: Option<u64> = self.highest_sequence();
        match known {
            Some(sequence) => {
                self.advance_floor(sequence);
            },
            None => {},
        }
        clear(&mut self.slots);
        self.coherent = false;
        assert(self@.items =~= Seq::<Item>::empty());
    }

    /// Starts again from a backing store: nothing at or below the floor is taken
    /// any more.
    pub fn recover_from_backing(&mut self, revision_floor: u64)
        requires
            old(self)@.wf(),
        ensures
            final(self)@ == (LocalView {
                items: Seq::empty(),
                limit: old(self)@.limit,
                floor: Some(old(self)@.raised_floor(revision_floor)),
                coherent: true,
            }),
            final(self)@.wf(),
    {
        clear(&mut self.slots);
        let floor: u64 = match self.revision_floor {
            Some(current) => max_u64(current, revision_floor),
            None => revision_floor,
        };
        self.revision_floor = Some(floor);
        self.coherent = true;
        assert(self@.items =~= Seq::<Item>::empty());
    }

    /// Starts again after the rings were reset.
    pub fn reset_after_transport_reset(&mut self)
        requires
            old(self)@.wf(),
        ensures
            final(self)@ == (LocalView {
                items: Seq::empty(),
                limit: old(self)@.limit,
                floor: None,
                coherent: true,
            }),
            final(self)@.wf(),
    {
        clear(&mut self.slots);
        self.revision_floor = None;
        self.coherent = true;
        assert(self@.items =~= Seq::<Item>::empty());
    }

    /// Applies a mutation whose value, for a put, was found or not.
    pub fn apply(&mut self, mutation: CacheMutation, resolved: Option<Bytes>) -> (outcome:
        ApplyOutcome)
        requires
            old(self)@.wf(),
        ensures
            ({
                let value = match resolved {
                    Some(value) => Some(octets(value)),
                    None => None,
                };
                &&& outcome@ == old(self)@.outcome(mutation@, value)
                &&& final(self)@ == old(self)@.apply(mutation@, value)
            }),
            final(self)@.wf(),
    {
        let revision = mutation.revision();
        if !self.accepts(revision) {
            return ApplyOutcome::Ignored;
        }
        match mutation {
            CacheMutation::Put { store: _, key, revision, expires_at_ms, .. } => match resolved {
                Some(value) => {
                    let applied = self.put_slot(
                        to_vec(octets::as_slice(&key)),
                        LocalSlot::Present(CacheEntry { value, revision, expires_at_ms }),
                    );
                    if applied {
                        ApplyOutcome::Applied
                    } else {
                        ApplyOutcome::Ignored
                    }
                },
                None => {
                    if self.put_slot(
                        to_vec(octets::as_slice(&key)),
                        LocalSlot::Missing { revision },
                    ) {
                        ApplyOutcome::PayloadUnavailable { key }
                    } else {
                        ApplyOutcome::Ignored
                    }
                },
            },
            CacheMutation::Delete { store: _, key, revision } => {
                if self.put_slot(
                    to_vec(octets::as_slice(&key)),
                    LocalSlot::Missing { revision },
                ) {
                    ApplyOutcome::Applied
                } else {
                    ApplyOutcome::Ignored
                }
            },
            CacheMutation::Reset { store: _, revision } => {
                self.advance_floor(revision.sequence);
                ApplyOutcome::Applied
            },
        }
    }

    /// Installs the value of this member's own put.
    pub fn install_local(
        &mut self,
        key: &[u8],
        value: Bytes,
        revision: CacheRevision,
        expires_at_ms: Option<u64>,
    )
        requires
            old(self)@.wf(),
        ensures
            final(self)@ == (if old(self)@.accepts(revision) {
                old(self)@.put(
                    key@,
                    SlotView::Present(EntryView { value: octets(value), revision, expires_at_ms }),
                )
            } else {
                old(self)@
            }),
            final(self)@.wf(),
    {
        if self.accepts(revision) {
            let _ = self.put_slot(
                to_vec(key),
                LocalSlot::Present(CacheEntry { value, revision, expires_at_ms }),
            );
        }
    }

    /// Takes away the key of this member's own delete.
    pub fn install_missing(&mut self, key: &[u8], revision: CacheRevision)
        requires
            old(self)@.wf(),
        ensures
            final(self)@ == (if old(self)@.accepts(revision) {
                old(self)@.put(key@, SlotView::Missing { revision })
            } else {
                old(self)@
            }),
            final(self)@.wf(),
    {
        if self.accepts(revision) {
            let _ = self.put_slot(to_vec(key), LocalSlot::Missing { revision });
        }
    }

    /// Drops everything up to this member's own reset.
    pub fn reset_local(&mut self, revision: CacheRevision)
        requires
            old(self)@.wf(),
        ensures
            final(self)@ == (if old(self)@.accepts(revision) {
                old(self)@.raise(revision.sequence)
            } else {
                old(self)@
            }),
            final(self)@.wf(),
    {
        if self.accepts(revision) {
            self.advance_floor(revision.sequence);
        }
    }

    fn accepts(&self, revision: CacheRevision) -> (accepted: bool)
        ensures
            accepted == self@.accepts(revision),
    {
        match self.revision_floor {
            Some(floor) => revision.sequence > floor,
            None => true,
        }
    }

    fn put_slot(&mut self, key: Vec<u8>, slot: LocalSlot) -> (taken: bool)
        requires
            old(self)@.wf(),
            old(self)@.accepts(slot@.revision()),
        ensures
            final(self)@ == old(self)@.put(key@, slot@),
            taken == old(self)@.takes(key@, slot@),
            final(self)@.wf(),
    {
        let ghost before = self@;
        let revision = slot.revision();
        match peek(&self.slots, key.as_slice()) {
            Some(current) => {
                if !current.revision().is_before(revision) {
                    return false;
                }
            },
            None => {},
        }
        proof {
            lemma_put_wf(before, key@, slot@);
            lemma_pushed(before.items, before.limit, key@, slot@, key@);
        }
        let inserted: Vec<u8> = to_vec(key.as_slice());
        let ghost installed = slot@;
        let left = push(&mut self.slots, key, slot);
        assert(self@ =~= (LocalView {
            items: pushed(before.items, before.limit, inserted@, installed),
            ..before
        }));
        match left {
            Some((removed_key, removed)) => {
                if !same_bytes(removed_key.as_slice(), inserted.as_slice()) {
                    self.advance_floor(removed.revision().sequence);
                }
            },
            None => {},
        }
        assert(self@ == before.put(inserted@, installed));
        peek(&self.slots, inserted.as_slice()).is_some()
    }

    fn highest_sequence(&self) -> (sequence: Option<u64>)
        ensures
            sequence == highest(self@.items),
    {
        let items = entries(&self.slots);
        let ghost view = self@.items;
        let mut found: Option<u64> = None;
        let mut index: usize = 0;
        assert(view.subrange(0, 0) =~= Seq::<Item>::empty());
        while index < items.len()
            invariant
                index <= items@.len(),
                items@.len() == view.len(),
                forall|i: int|
                    0 <= i < items@.len() ==> {
                        &&& (#[trigger] items@[i]).0@ == view[i].0
                        &&& items@[i].1@ == view[i].1
                    },
                found == highest(view.subrange(0, index as int)),
            decreases items@.len() - index,
        {
            let ghost prefix = view.subrange(0, index + 1);
            assert(prefix.drop_last() =~= view.subrange(0, index as int));
            assert(prefix.last() == view[index as int]);
            let sequence: u64 = items[index].1.revision().sequence;
            found = match found {
                Some(before) => Some(max_u64(before, sequence)),
                None => Some(sequence),
            };
            index = index + 1;
        }
        assert(view.subrange(0, view.len() as int) =~= view);
        found
    }

    fn advance_floor(&mut self, sequence: u64)
        requires
            old(self)@.limit > 0,
            distinct(old(self)@.items),
            old(self)@.items.len() <= old(self)@.limit,
        ensures
            final(self)@ == old(self)@.raise(sequence),
            final(self)@.wf(),
    {
        let ghost before = self@;
        let floor: u64 = match self.revision_floor {
            Some(current) => max_u64(current, sequence),
            None => sequence,
        };
        self.revision_floor = Some(floor);
        let stale: Vec<Vec<u8>> = self.keys_up_to(floor);
        let ghost keys = stale_keys(before.items, floor);
        let mut index: usize = 0;
        assert(keys.subrange(0, 0) =~= Seq::<Seq<u8>>::empty());
        while index < stale.len()
            invariant
                index <= stale@.len(),
                stale@.len() == keys.len(),
                forall|i: int| 0 <= i < stale@.len() ==> (#[trigger] stale@[i])@ == keys[i],
                self@.items == without_all(before.items, keys.subrange(0, index as int)),
                self@.limit == before.limit,
                self@.coherent == before.coherent,
                self@.floor == Some(floor),
            decreases stale@.len() - index,
        {
            let ghost prefix = keys.subrange(0, index + 1);
            assert(prefix.drop_last() =~= keys.subrange(0, index as int));
            assert(prefix.last() == keys[index as int]);
            pop(&mut self.slots, stale[index].as_slice());
            index = index + 1;
        }
        proof {
            assert(keys.subrange(0, keys.len() as int) =~= keys);
            lemma_removed_stale(before.items, floor);
            lemma_raise_wf(before, sequence);
        }
    }

    fn keys_up_to(&self, floor: u64) -> (keys: Vec<Vec<u8>>)
        ensures
            keys@.len() == stale_keys(self@.items, floor).len(),
            forall|i: int|
                0 <= i < keys@.len() ==> (#[trigger] keys@[i])@ == stale_keys(
                    self@.items,
                    floor,
                )[i],
    {
        let items = entries(&self.slots);
        let ghost view = self@.items;
        let mut keys: Vec<Vec<u8>> = Vec::new();
        let mut index: usize = 0;
        assert(view.subrange(0, 0) =~= Seq::<Item>::empty());
        while index < items.len()
            invariant
                index <= items@.len(),
                items@.len() == view.len(),
                forall|i: int|
                    0 <= i < items@.len() ==> {
                        &&& (#[trigger] items@[i]).0@ == view[i].0
                        &&& items@[i].1@ == view[i].1
                    },
                keys@.len() == stale_keys(view.subrange(0, index as int), floor).len(),
                forall|i: int|
                    0 <= i < keys@.len() ==> (#[trigger] keys@[i])@ == stale_keys(
                        view.subrange(0, index as int),
                        floor,
                    )[i],
            decreases items@.len() - index,
        {
            let ghost prefix = view.subrange(0, index + 1);
            assert(prefix.drop_last() =~= view.subrange(0, index as int));
            assert(prefix.last() == view[index as int]);
            assert(items@[index as int].1@ == view[index as int].1);
            if items[index].1.revision().sequence <= floor {
                keys.push(to_vec(items[index].0.as_slice()));
            }
            index = index + 1;
        }
        assert(view.subrange(0, view.len() as int) =~= view);
        keys
    }
}

} // verus!
