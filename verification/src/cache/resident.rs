//! The bounded map of resident cache slots: the LRU map of the `lru` crate.
use bytes::Bytes;
use lru::LruCache;
use std::num::NonZeroUsize;
use vstd::prelude::*;

use crate::cache::protocol::CacheRevision;
use crate::octets;
use crate::octets::octets;

verus! {

/// One local value, and the mutation that installed it.
#[derive(Debug, PartialEq, Eq)]
pub struct CacheEntry {
    pub value: Bytes,
    pub revision: CacheRevision,
    pub expires_at_ms: Option<u64>,
}

/// What an entry says.
pub struct EntryView {
    pub value: Seq<u8>,
    pub revision: CacheRevision,
    pub expires_at_ms: Option<u64>,
}

impl EntryView {
    /// True when the entry's deadline has come.
    pub open spec fn expired(self, now_ms: u64) -> bool {
        match self.expires_at_ms {
            Some(deadline) => deadline <= now_ms,
            None => false,
        }
    }
}

impl View for CacheEntry {
    type V = EntryView;

    open spec fn view(&self) -> EntryView {
        EntryView {
            value: octets(self.value),
            revision: self.revision,
            expires_at_ms: self.expires_at_ms,
        }
    }
}

impl Clone for CacheEntry {
    fn clone(&self) -> (copy: CacheEntry)
        ensures
            copy@ == self@,
    {
        CacheEntry {
            value: octets::duplicate(&self.value),
            revision: self.revision,
            expires_at_ms: self.expires_at_ms,
        }
    }
}

impl CacheEntry {
    /// True when the entry's deadline has come.
    pub fn is_expired_at(&self, now_ms: u64) -> (expired: bool)
        ensures
            expired == self@.expired(now_ms),
    {
        match self.expires_at_ms {
            Some(deadline) => deadline <= now_ms,
            None => false,
        }
    }
}

/// What is known locally of one key: its value, or that a mutation took it away.
#[derive(Debug, PartialEq, Eq)]
pub enum LocalSlot {
    Present(CacheEntry),
    Missing { revision: CacheRevision },
}

/// What a slot says.
pub enum SlotView {
    Present(EntryView),
    Missing { revision: CacheRevision },
}

impl SlotView {
    /// The mutation that the slot reflects.
    pub open spec fn revision(self) -> CacheRevision {
        match self {
            SlotView::Present(entry) => entry.revision,
            SlotView::Missing { revision } => revision,
        }
    }
}

impl View for LocalSlot {
    type V = SlotView;

    open spec fn view(&self) -> SlotView {
        match self {
            LocalSlot::Present(entry) => SlotView::Present(entry@),
            LocalSlot::Missing { revision } => SlotView::Missing { revision: *revision },
        }
    }
}

impl LocalSlot {
    /// The mutation that the slot reflects.
    pub fn revision(&self) -> (revision: CacheRevision)
        ensures
            revision == self@.revision(),
    {
        match self {
            LocalSlot::Present(entry) => entry.revision,
            LocalSlot::Missing { revision } => *revision,
        }
    }
}

/// A key and its slot.
pub type Item = (Seq<u8>, SlotView);

/// The LRU map type of the `lru` crate.
#[verifier::external_type_specification]
#[verifier::external_body]
#[verifier::reject_recursive_types(K)]
#[verifier::reject_recursive_types(V)]
#[verifier::reject_recursive_types(S)]
pub struct ExLruCache<K, V, S>(lru::LruCache<K, V, S>);

/// The hasher that an `LruCache` uses by default.
#[verifier::external_type_specification]
#[verifier::external_body]
pub struct ExDefaultHasher(lru::DefaultHasher);

/// What an LRU map holds, the most recently used item first.
pub uninterp spec fn resident(cache: LruCache<Vec<u8>, LocalSlot>) -> Seq<(Seq<u8>, SlotView)>;

/// How many items an LRU map holds at most.
pub uninterp spec fn bound(cache: LruCache<Vec<u8>, LocalSlot>) -> nat;

/// True when a key has an item.
pub open spec fn has_key(items: Seq<Item>, key: Seq<u8>) -> bool {
    exists|i: int| 0 <= i < items.len() && (#[trigger] items[i]).0 == key
}

/// The place of a key's item.
pub open spec fn place_of(items: Seq<Item>, key: Seq<u8>) -> int {
    choose|i: int| 0 <= i < items.len() && (#[trigger] items[i]).0 == key
}

/// The slot of a key that has an item.
pub open spec fn slot_of(items: Seq<Item>, key: Seq<u8>) -> SlotView {
    items[place_of(items, key)].1
}

/// The items with the one at a place moved to the front.
pub open spec fn to_front(items: Seq<Item>, place: int) -> Seq<Item> {
    seq![items[place]] + items.remove(place)
}

/// The items after a slot was pushed for a key: in front, in place of the key's
/// item where it has one, and else of the last item where the map is full.
pub open spec fn pushed(items: Seq<Item>, limit: nat, key: Seq<u8>, slot: SlotView) -> Seq<Item> {
    if has_key(items, key) {
        seq![(key, slot)] + items.remove(place_of(items, key))
    } else if items.len() == limit {
        seq![(key, slot)] + items.drop_last()
    } else {
        seq![(key, slot)] + items
    }
}

/// The items without a key.
pub open spec fn without(items: Seq<Item>, key: Seq<u8>) -> Seq<Item> {
    if has_key(items, key) {
        items.remove(place_of(items, key))
    } else {
        items
    }
}

/// `LruCache::new`: an empty map for this many items. The call allocates its
/// table at once: a capacity of zero, or one whose table exceeds the address
/// space, is left out.
#[verifier::external_body]
pub(crate) fn new_map(capacity: usize) -> (cache: LruCache<Vec<u8>, LocalSlot>)
    requires
        0 < capacity <= isize::MAX / 64,
    ensures
        resident(cache).len() == 0,
        bound(cache) == capacity,
{
    LruCache::new(NonZeroUsize::new(capacity).unwrap())
}

/// `LruCache::get`: the slot of a key, whose item becomes the most recent.
#[verifier::external_body]
pub(crate) fn touch<'a>(cache: &'a mut LruCache<Vec<u8>, LocalSlot>, key: &[u8]) -> (slot: Option<
    &'a LocalSlot,
>)
    ensures
        slot is Some == has_key(resident(*old(cache)), key@),
        has_key(resident(*old(cache)), key@) ==> {
            &&& slot->0@ == slot_of(resident(*old(cache)), key@)
            &&& resident(*final(cache)) == to_front(
                resident(*old(cache)),
                place_of(resident(*old(cache)), key@),
            )
        },
        !has_key(resident(*old(cache)), key@) ==> resident(*final(cache)) == resident(*old(cache)),
        bound(*final(cache)) == bound(*old(cache)),
{
    cache.get(key)
}

/// `LruCache::peek`: the slot of a key, without a change to the order.
#[verifier::external_body]
pub(crate) fn peek<'a>(cache: &'a LruCache<Vec<u8>, LocalSlot>, key: &[u8]) -> (slot: Option<
    &'a LocalSlot,
>)
    ensures
        slot is Some == has_key(resident(*cache), key@),
        has_key(resident(*cache), key@) ==> slot->0@ == slot_of(resident(*cache), key@),
{
    cache.peek(key)
}

/// `LruCache::push`: puts a slot for a key in front. It returns the item that
/// had to leave: the key's old one, or the last one of a full map.
#[verifier::external_body]
pub(crate) fn push(
    cache: &mut LruCache<Vec<u8>, LocalSlot>,
    key: Vec<u8>,
    slot: LocalSlot,
) -> (left: Option<(Vec<u8>, LocalSlot)>)
    ensures
        resident(*final(cache)) == pushed(
            resident(*old(cache)),
            bound(*old(cache)),
            key@,
            slot@,
        ),
        bound(*final(cache)) == bound(*old(cache)),
        has_key(resident(*old(cache)), key@) ==> {
            &&& left is Some
            &&& (left->0).0@ == key@
            &&& (left->0).1@ == slot_of(resident(*old(cache)), key@)
        },
        !has_key(resident(*old(cache)), key@) && resident(*old(cache)).len() == bound(*old(cache))
            ==> {
            &&& left is Some
            &&& (left->0).0@ == resident(*old(cache)).last().0
            &&& (left->0).1@ == resident(*old(cache)).last().1
        },
        !has_key(resident(*old(cache)), key@) && resident(*old(cache)).len() != bound(*old(cache))
            ==> left is None,
{
    cache.push(key, slot)
}

/// `LruCache::pop`: removes a key's item.
#[verifier::external_body]
pub(crate) fn pop(cache: &mut LruCache<Vec<u8>, LocalSlot>, key: &[u8])
    ensures
        resident(*final(cache)) == without(resident(*old(cache)), key@),
        bound(*final(cache)) == bound(*old(cache)),
{
    cache.pop(key);
}

/// `LruCache::clear`: removes every item.
#[verifier::external_body]
pub(crate) fn clear(cache: &mut LruCache<Vec<u8>, LocalSlot>)
    ensures
        resident(*final(cache)).len() == 0,
        bound(*final(cache)) == bound(*old(cache)),
{
    cache.clear();
}

/// `LruCache::iter`: the items, the most recently used first.
#[verifier::external_body]
pub(crate) fn entries<'a>(cache: &'a LruCache<Vec<u8>, LocalSlot>) -> (items: Vec<
    (&'a Vec<u8>, &'a LocalSlot),
>)
    ensures
        items@.len() == resident(*cache).len(),
        forall|i: int|
            0 <= i < items@.len() ==> {
                &&& (#[trigger] items@[i]).0@ == resident(*cache)[i].0
                &&& items@[i].1@ == resident(*cache)[i].1
            },
{
    cache.iter().collect()
}

/// No key has two items.
pub open spec fn distinct(items: Seq<Item>) -> bool {
    forall|i: int, j: int|
        0 <= i < items.len() && 0 <= j < items.len() && i != j ==> (#[trigger] items[i]).0 != (
        #[trigger] items[j]).0
}

/// The place of a key in distinct items is the one place that holds it.
pub proof fn lemma_place(items: Seq<Item>, key: Seq<u8>, place: int)
    requires
        distinct(items),
        0 <= place < items.len(),
        items[place].0 == key,
    ensures
        has_key(items, key),
        place_of(items, key) == place,
{
}

/// Moving an item to the front keeps the keys distinct and every slot.
pub proof fn lemma_to_front(items: Seq<Item>, place: int, key: Seq<u8>)
    requires
        distinct(items),
        0 <= place < items.len(),
    ensures
        distinct(to_front(items, place)),
        to_front(items, place).len() == items.len(),
        has_key(to_front(items, place), key) == has_key(items, key),
        has_key(items, key) ==> slot_of(to_front(items, place), key) == slot_of(items, key),
{
    let after = to_front(items, place);
    if has_key(items, key) {
        let at = place_of(items, key);
        let moved = if at == place {
            0
        } else if at < place {
            at + 1
        } else {
            at
        };
        assert(after[moved] == items[at]);
        lemma_place(after, key, moved);
    }
    if has_key(after, key) {
        let at = place_of(after, key);
        let origin = if at == 0 {
            place
        } else if at <= place {
            at - 1
        } else {
            at
        };
        assert(after[at] == items[origin]);
    }
}

/// Removing a key keeps the other keys distinct and their slots.
pub proof fn lemma_without(items: Seq<Item>, gone: Seq<u8>, key: Seq<u8>)
    requires
        distinct(items),
    ensures
        distinct(without(items, gone)),
        without(items, gone).len() <= items.len(),
        !has_key(without(items, gone), gone),
        key != gone ==> has_key(without(items, gone), key) == has_key(items, key),
        key != gone && has_key(items, key) ==> slot_of(without(items, gone), key) == slot_of(
            items,
            key,
        ),
{
    let after = without(items, gone);
    if has_key(items, gone) {
        let place = place_of(items, gone);
        assert forall|i: int| 0 <= i < after.len() implies (#[trigger] after[i]).0 != gone by {
            let origin = if i < place {
                i
            } else {
                i + 1
            };
            assert(after[i] == items[origin]);
        }
        if key != gone && has_key(items, key) {
            let at = place_of(items, key);
            let moved = if at < place {
                at
            } else {
                at - 1
            };
            assert(after[moved] == items[at]);
            lemma_place(after, key, moved);
        }
        if key != gone && has_key(after, key) {
            let at = place_of(after, key);
            let origin = if at < place {
                at
            } else {
                at + 1
            };
            assert(after[at] == items[origin]);
        }
    }
}

/// Pushing a slot keeps the keys distinct and within the limit, and gives the
/// key its slot. Another key keeps its slot, unless it was the last item of a
/// full map.
pub proof fn lemma_pushed(
    items: Seq<Item>,
    limit: nat,
    key: Seq<u8>,
    slot: SlotView,
    other: Seq<u8>,
)
    requires
        distinct(items),
        items.len() <= limit,
        limit > 0,
    ensures
        ({
            let after = pushed(items, limit, key, slot);
            let evicts = !has_key(items, key) && items.len() == limit;
            &&& distinct(after)
            &&& after.len() <= limit
            &&& has_key(after, key)
            &&& slot_of(after, key) == slot
            &&& other != key && !(evicts && other == items.last().0) ==> has_key(after, other)
                == has_key(items, other)
            &&& other != key && !(evicts && other == items.last().0) && has_key(items, other)
                ==> slot_of(after, other) == slot_of(items, other)
            &&& evicts ==> items.last().0 != key && !has_key(after, items.last().0)
        }),
{
    let after = pushed(items, limit, key, slot);
    let evicts = !has_key(items, key) && items.len() == limit;
    let rest = if has_key(items, key) {
        items.remove(place_of(items, key))
    } else if evicts {
        items.drop_last()
    } else {
        items
    };
    assert(after == seq![(key, slot)] + rest);
    assert(distinct(rest) && !has_key(rest, key)) by {
        if has_key(items, key) {
            lemma_without(items, key, other);
        }
    }
    assert(distinct(after)) by {
        assert forall|i: int, j: int|
            0 <= i < after.len() && 0 <= j < after.len() && i != j implies (#[trigger] after[i]).0
            != (#[trigger] after[j]).0 by {
            if i > 0 {
                assert(after[i] == rest[i - 1]);
            }
            if j > 0 {
                assert(after[j] == rest[j - 1]);
            }
        }
    }
    assert(after[0] == (key, slot));
    lemma_place(after, key, 0);
    if evicts {
        assert(items[items.len() - 1].0 == items.last().0);
        assert forall|i: int| 0 <= i < after.len() implies (#[trigger] after[i]).0
            != items.last().0 by {
            if i > 0 {
                assert(after[i] == items[i - 1]);
            }
        }
    }
    if other != key && !(evicts && other == items.last().0) {
        if has_key(items, key) {
            lemma_without(items, key, other);
        }
        if has_key(rest, other) {
            let at = place_of(rest, other);
            assert(after[at + 1] == rest[at]);
            lemma_place(after, other, at + 1);
        }
        if has_key(after, other) {
            let at = place_of(after, other);
            assert(after[at] == rest[at - 1]);
        }
        if !has_key(items, key) && has_key(items, other) {
            let at = place_of(items, other);
            assert(rest[at] == items[at]);
            assert(after[at + 1] == rest[at]);
            lemma_place(after, other, at + 1);
        }
    }
}

} // verus!
