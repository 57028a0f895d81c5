//! The authoritative lock state: a table of fixed capacity.
//!
//! A change of a lock's state has two steps. The first one finds the lock's
//! place, mints what the change needs and says what is to be published; the
//! second one writes the place. Whoever drives the table publishes the
//! transition in between, so that a publication that fails leaves the lock as
//! it was.
use vstd::pervasive::unreached;
use vstd::prelude::*;

use crate::fnv::{fnv, hash_from, hash_of, lemma_fnv_concat, FNV_OFFSET_BASIS};
use crate::id::NetId64;
use crate::lock::error::Error;
use crate::lock::keys::{lease_view, KeyView, LeaseView, LockKey, LockLease, LockOwner};
use crate::codec::{read_u64, same_bytes, u64_at};
use crate::numbers::max_u64;
use crate::probe::{
    holds, home_of, lemma_absent, lemma_give_up, lemma_probed_inside, lemma_put, lemma_steps,
    probe_index, probed, probing, unmet, Place,
};
use crate::table::StateHeader;

verus! {

/// How many locks can be held at once.
pub const LOCK_STATE_CAPACITY: usize = 256;

/// Bytes of namespace, label and owner that a slot has room for.
pub const LOCK_STATE_PAYLOAD_MAX: usize = 960;

/// Bytes of one place in shared memory.
pub const LOCK_SLOT_BYTES: usize = 1_024;

/// The last tenure that can be numbered.
pub const LOCK_COUNTER_MAX: u64 = 0xFF_FFFF_FFFF;

/// One place of the lock table.
#[derive(Debug, PartialEq, Eq)]
pub enum LockSlot {
    Empty,
    Tombstone,
    Occupied { key_hash: u64, lease: LockLease },
    /// Shared memory has something here at which no search for a key ends.
    Foreign { bytes: Vec<u8> },
}

/// What a place of the lock table says.
pub enum SlotView {
    Empty,
    Tombstone,
    Occupied(LeaseView),
    Foreign(Seq<u8>),
}

impl View for LockSlot {
    type V = SlotView;

    open spec fn view(&self) -> SlotView {
        match self {
            LockSlot::Empty => SlotView::Empty,
            LockSlot::Tombstone => SlotView::Tombstone,
            LockSlot::Occupied { key_hash, lease } => SlotView::Occupied(lease@),
            LockSlot::Foreign { bytes } => SlotView::Foreign(bytes@),
        }
    }
}

/// True when the bytes of a place say that a tenure is there, and that it is over.
pub open spec fn bytes_over(bytes: Seq<u8>, now_ms: u64) -> bool {
    bytes[0] == 1 && u64_at(bytes, 40) <= now_ms
}

impl SlotView {
    /// What the place means to a search.
    pub open spec fn place(self) -> Place<KeyView> {
        match self {
            SlotView::Empty => Place::Empty,
            SlotView::Tombstone => Place::Gone,
            SlotView::Occupied(lease) => Place::Held(lease.key),
            SlotView::Foreign(bytes) => Place::Gone,
        }
    }

    /// True when no new tenure can come here.
    pub open spec fn taken(self, now_ms: u64) -> bool {
        match self {
            SlotView::Occupied(lease) => !lease.expired(now_ms),
            SlotView::Foreign(bytes) => !bytes_over(bytes, now_ms),
            _ => false,
        }
    }

    /// True when the place has room for what is there.
    pub open spec fn fits(self) -> bool {
        match self {
            SlotView::Occupied(lease) => lease.fits(),
            SlotView::Foreign(bytes) => bytes.len() == LOCK_SLOT_BYTES,
            _ => true,
        }
    }

    /// True when a tenure that is not over is here.
    pub open spec fn live(self, now_ms: u64) -> bool {
        match self {
            SlotView::Occupied(lease) => !lease.expired(now_ms),
            _ => false,
        }
    }
}

/// The hash of a key.
pub open spec fn key_hash(key: KeyView) -> u64 {
    fnv(key.namespace + key.label)
}

/// The hash of keys, as a function.
pub open spec fn hasher() -> spec_fn(KeyView) -> u64 {
    |key: KeyView| key_hash(key)
}

/// What the places mean to a search.
pub open spec fn places(slots: Seq<SlotView>) -> Seq<Place<KeyView>> {
    slots.map_values(|slot: SlotView| slot.place())
}

/// What a lock table holds.
#[verifier::ext_equal]
pub struct TableView {
    pub slots: Seq<SlotView>,
    pub next_lock: u64,
    pub next_revision: u64,
}

impl TableView {
    /// A table without locks.
    pub open spec fn blank() -> TableView {
        TableView {
            slots: Seq::new(LOCK_STATE_CAPACITY as nat, |i: int| SlotView::Empty),
            next_lock: 0,
            next_revision: 0,
        }
    }

    /// Searches work, and no key is held twice.
    pub open spec fn wf(self) -> bool {
        &&& self.slots.len() == LOCK_STATE_CAPACITY
        &&& probing(places(self.slots), hasher())
        &&& forall|i: int| 0 <= i < self.slots.len() ==> (#[trigger] self.slots[i]).fits()
    }

    /// Every tenure was minted here.
    pub open spec fn numbered(self) -> bool {
        forall|i: int|
            0 <= i < self.slots.len() && (#[trigger] self.slots[i]) is Occupied ==> {
                let lease = self.slots[i]->Occupied_0;
                &&& lease.token() <= self.next_lock
                &&& lease.state_revision <= self.next_revision
            }
    }

    /// True when a place holds the tenure of this key that is not over.
    pub open spec fn live_at(self, i: int, key: KeyView, now_ms: u64) -> bool {
        &&& 0 <= i < self.slots.len()
        &&& self.slots[i].live(now_ms)
        &&& self.slots[i]->Occupied_0.key == key
    }

    /// The tenure of a key that is not over.
    pub open spec fn live(self, key: KeyView, now_ms: u64) -> Option<LeaseView> {
        if exists|i: int| #[trigger] self.live_at(i, key, now_ms) {
            Some(self.slots[choose|i: int| #[trigger] self.live_at(i, key, now_ms)]->Occupied_0)
        } else {
            None
        }
    }

    /// True when no place can take a new tenure.
    pub open spec fn full(self, now_ms: u64) -> bool {
        forall|i: int| 0 <= i < self.slots.len() ==> (#[trigger] self.slots[i]).taken(now_ms)
    }
}

/// True when the second table differs from the first only in that tenures that
/// are over may have left their places.
pub open spec fn swept(before: Seq<SlotView>, after: Seq<SlotView>, now_ms: u64) -> bool {
    &&& after.len() == before.len()
    &&& forall|i: int|
        0 <= i < before.len() ==> (#[trigger] after[i]) == before[i] || over_left(
            before[i],
            after[i],
            now_ms,
        )
}

/// True when what was at a place is over, and left it.
pub open spec fn over_left(before: SlotView, after: SlotView, now_ms: u64) -> bool {
    &&& after is Tombstone
    &&& before is Occupied || before is Foreign
    &&& !before.taken(now_ms)
}

/// The tenure of a key that is not over is at one place only.
pub proof fn lemma_live_at(table: TableView, i: int, key: KeyView, now_ms: u64)
    requires
        table.wf(),
        table.live_at(i, key, now_ms),
    ensures
        table.live(key, now_ms) == Some(table.slots[i]->Occupied_0),
{
    let j = choose|j: int| #[trigger] table.live_at(j, key, now_ms);
    let all = places(table.slots);
    if i != j {
        assert(all[i] == Place::Held(key));
        assert(all[j] == Place::Held(key));
    }
}

/// Sweeping does not change which tenures are not over.
pub proof fn lemma_swept_live(
    before: TableView,
    after: TableView,
    key: KeyView,
    now_ms: u64,
    later_ms: u64,
)
    requires
        before.wf(),
        after.wf(),
        swept(before.slots, after.slots, now_ms),
        now_ms <= later_ms,
    ensures
        after.live(key, later_ms) == before.live(key, later_ms),
{
    if exists|i: int| #[trigger] before.live_at(i, key, later_ms) {
        let i = choose|i: int| #[trigger] before.live_at(i, key, later_ms);
        assert(after.slots[i] == before.slots[i]);
        assert(after.live_at(i, key, later_ms));
        lemma_live_at(after, i, key, later_ms);
    } else if exists|i: int| #[trigger] after.live_at(i, key, later_ms) {
        let i = choose|i: int| #[trigger] after.live_at(i, key, later_ms);
        assert(after.slots[i] == before.slots[i]);
        assert(before.live_at(i, key, later_ms));
    }
}

/// Sweeping is transitive.
proof fn lemma_swept_twice(
    a: Seq<SlotView>,
    b: Seq<SlotView>,
    c: Seq<SlotView>,
    now_ms: u64,
)
    requires
        swept(a, b, now_ms),
        swept(b, c, now_ms),
    ensures
        swept(a, c, now_ms),
{
    assert forall|i: int| 0 <= i < a.len() implies (#[trigger] c[i]) == a[i] || over_left(
        a[i],
        c[i],
        now_ms,
    ) by {
        assert(b[i] == a[i] || over_left(a[i], b[i], now_ms));
    }
}

/// Why a key is refused.
pub open spec fn key_fault(key: KeyView) -> Option<Error> {
    if key.namespace.len() == 0 {
        Some(Error::NamespaceEmpty)
    } else if key.label.len() == 0 {
        Some(Error::KeyEmpty)
    } else if key.namespace.len() + key.label.len() > LOCK_STATE_PAYLOAD_MAX {
        Some(
            Error::EntryTooLarge {
                namespace_len: key.namespace.len() as usize,
                key_len: key.label.len() as usize,
                owner_len: 0,
                max_payload: LOCK_STATE_PAYLOAD_MAX,
            },
        )
    } else {
        None
    }
}

/// Why a key with an owner is refused.
pub open spec fn entry_fault(key: KeyView, owner: Seq<u8>) -> Option<Error> {
    if key_fault(key) is Some {
        key_fault(key)
    } else if owner.len() == 0 {
        Some(Error::OwnerEmpty)
    } else if key.namespace.len() + key.label.len() + owner.len() > LOCK_STATE_PAYLOAD_MAX {
        Some(
            Error::EntryTooLarge {
                namespace_len: key.namespace.len() as usize,
                key_len: key.label.len() as usize,
                owner_len: owner.len() as usize,
                max_payload: LOCK_STATE_PAYLOAD_MAX,
            },
        )
    } else {
        None
    }
}

/// Checks a key.
pub fn validate_key(key: &LockKey) -> (valid: Result<(), Error>)
    ensures
        match key_fault(key@) {
            Some(error) => valid == Err::<(), Error>(error),
            None => valid is Ok,
        },
{
    let namespace: &[u8] = key.namespace();
    let label: &[u8] = key.label();
    if namespace.len() == 0 {
        return Err(Error::NamespaceEmpty);
    }
    if label.len() == 0 {
        return Err(Error::KeyEmpty);
    }
    if namespace.len() > 0xffff || label.len() > 0xffff || namespace.len().saturating_add(
        label.len(),
    ) > LOCK_STATE_PAYLOAD_MAX {
        return Err(
            Error::EntryTooLarge {
                namespace_len: namespace.len(),
                key_len: label.len(),
                owner_len: 0,
                max_payload: LOCK_STATE_PAYLOAD_MAX,
            },
        );
    }
    Ok(())
}

/// Checks a key and an owner.
pub fn validate_entry(key: &LockKey, owner: &LockOwner) -> (valid: Result<(), Error>)
    ensures
        match entry_fault(key@, owner@) {
            Some(error) => valid == Err::<(), Error>(error),
            None => valid is Ok,
        },
{
    match validate_key(key) {
        Ok(_) => {},
        Err(error) => {
            return Err(error);
        },
    }
    let namespace: &[u8] = key.namespace();
    let label: &[u8] = key.label();
    let holder: &[u8] = owner.as_bytes();
    if holder.len() == 0 {
        return Err(Error::OwnerEmpty);
    }
    if holder.len() > 0xffff || namespace.len().saturating_add(label.len()).saturating_add(
        holder.len(),
    ) > LOCK_STATE_PAYLOAD_MAX {
        return Err(
            Error::EntryTooLarge {
                namespace_len: namespace.len(),
                key_len: label.len(),
                owner_len: holder.len(),
                max_payload: LOCK_STATE_PAYLOAD_MAX,
            },
        );
    }
    Ok(())
}

/// The header of a lock table in shared memory.
pub fn lock_header() -> (header: StateHeader)
    ensures
        header == (StateHeader {
            magic: 0x4F4C_5354,
            version: 2,
            header_size: 64,
            capacity: LOCK_STATE_CAPACITY as u32,
            slot_size: 1_024,
        }),
{
    StateHeader {
        magic: 0x4F4C_5354,
        version: 2,
        header_size: 64,
        capacity: LOCK_STATE_CAPACITY as u32,
        slot_size: 1_024,
    }
}

/// The hash of a key.
pub fn lock_hash(key: &LockKey) -> (hash: u64)
    ensures
        hash == key_hash(key@),
{
    proof {
        lemma_fnv_concat(FNV_OFFSET_BASIS, key@.namespace, key@.label);
    }
    hash_from(hash_of(key.namespace()), key.label())
}

/// The fixed-capacity table of current locks.
pub struct LockTable {
    slots: Vec<LockSlot>,
    next_lock: u64,
    next_revision: u64,
}

impl View for LockTable {
    type V = TableView;

    closed spec fn view(&self) -> TableView {
        TableView {
            slots: self.slots@.map_values(|slot: LockSlot| slot@),
            next_lock: self.next_lock,
            next_revision: self.next_revision,
        }
    }
}

/// The first step of an attempt to acquire a lock.
pub enum AcquirePlan {
    /// The lock is held by this tenure.
    Held(LockLease),
    /// The lock is free: this tenure is to be published and then written to
    /// this place.
    Free { place: usize, lease: LockLease },
}

impl TableView {
    /// True when a tenure of this key may be written to a place.
    pub open spec fn admits(self, place: int, key: KeyView) -> bool {
        &&& self.wf()
        &&& 0 <= place < self.slots.len()
        &&& self.slots[place] is Empty || self.slots[place] is Tombstone
        &&& !holds(places(self.slots), key)
        &&& probing(places(self.slots).update(place, Place::Held(key)), hasher())
    }

    /// True when a place holds a tenure of this key.
    pub open spec fn occupies(self, place: int, key: KeyView) -> bool {
        &&& self.wf()
        &&& 0 <= place < self.slots.len()
        &&& self.slots[place] is Occupied
        &&& self.slots[place]->Occupied_0.key == key
    }

    /// The table after a tenure was written to a place.
    pub open spec fn write(self, place: int, lease: LeaseView) -> TableView {
        TableView { slots: self.slots.update(place, SlotView::Occupied(lease)), ..self }
    }

    /// The table after a place was given up.
    pub open spec fn give_up(self, place: int) -> TableView {
        TableView { slots: self.slots.update(place, SlotView::Tombstone), ..self }
    }
}

/// True when the hash that a slot stores is the hash of its key.
pub open spec fn slot_hashed(slot: LockSlot) -> bool {
    slot matches LockSlot::Occupied { key_hash: hash, lease } ==> hash == key_hash(lease.key@)
}

impl LockTable {
    /// Every stored hash is the hash of its key.
    pub closed spec fn hashed(&self) -> bool {
        forall|i: int| 0 <= i < self.slots@.len() ==> slot_hashed(#[trigger] self.slots@[i])
    }

    /// The table's places fit together.
    pub open spec fn wf(&self) -> bool {
        self@.wf() && self.hashed()
    }

    /// The slots.
    pub(crate) fn slots(&self) -> (slots: &Vec<LockSlot>)
        ensures
            slots@.map_values(|slot: LockSlot| slot@) == self@.slots,
            self.hashed() ==> forall|i: int|
                0 <= i < slots@.len() ==> slot_hashed(#[trigger] slots@[i]),
    {
        &self.slots
    }

    /// The last tenure and the last revision that were numbered.
    pub(crate) fn counters(&self) -> (counters: (u64, u64))
        ensures
            counters == (self@.next_lock, self@.next_revision),
    {
        (self.next_lock, self.next_revision)
    }

    /// A table of these slots.
    pub(crate) fn from_parts(slots: Vec<LockSlot>, next_lock: u64, next_revision: u64) -> (table:
        LockTable)
        requires
            forall|i: int| 0 <= i < slots@.len() ==> slot_hashed(#[trigger] slots@[i]),
        ensures
            table@ == (TableView {
                slots: slots@.map_values(|slot: LockSlot| slot@),
                next_lock,
                next_revision,
            }),
            table.hashed(),
    {
        LockTable { slots, next_lock, next_revision }
    }

    /// A table without locks.
    pub fn new() -> (table: LockTable)
        ensures
            table.wf(),
            table@.numbered(),
            table@ == TableView::blank(),
    {
        let mut slots: Vec<LockSlot> = Vec::new();
        while slots.len() < LOCK_STATE_CAPACITY
            invariant
                slots@.len() <= LOCK_STATE_CAPACITY,
                forall|i: int| 0 <= i < slots@.len() ==> #[trigger] slots@[i] == LockSlot::Empty,
            decreases LOCK_STATE_CAPACITY - slots@.len(),
        {
            slots.push(LockSlot::Empty);
        }
        let table = LockTable { slots, next_lock: 0, next_revision: 0 };
        assert(table@.slots =~= TableView::blank().slots);
        table
    }

    /// Forgets every lock and starts both counters again.
    pub fn reset(&mut self)
        ensures
            final(self).wf(),
            final(self)@.numbered(),
            final(self)@ == TableView::blank(),
    {
        *self = LockTable::new();
    }

    fn set_slot(&mut self, place: usize, slot: LockSlot)
        requires
            place < old(self)@.slots.len(),
            old(self).hashed(),
            slot matches LockSlot::Occupied { key_hash: hash, lease } ==> hash == key_hash(
                lease.key@,
            ),
        ensures
            final(self)@ == (TableView {
                slots: old(self)@.slots.update(place as int, slot@),
                ..old(self)@
            }),
            final(self).hashed(),
    {
        let ghost before = self@.slots;
        let ghost said = slot@;
        self.slots[place] = slot;
        assert(self@.slots =~= before.update(place as int, said));
    }

    fn tombstone(&mut self, place: usize)
        requires
            old(self).wf(),
            place < old(self)@.slots.len(),
        ensures
            final(self).wf(),
            old(self)@.numbered() ==> final(self)@.numbered(),
            final(self)@ == old(self)@.give_up(place as int),
    {
        let ghost before = self@;
        self.set_slot(place, LockSlot::Tombstone);
        proof {
            lemma_give_up(places(before.slots), hasher(), place as int);
            assert(places(self@.slots) =~= places(before.slots).update(
                place as int,
                Place::Gone,
            ));
        }
    }

    /// The place that holds a tenure of this key, whether it is over or not.
    fn find_slot(&self, key: &LockKey) -> (place: Option<usize>)
        requires
            self.wf(),
        ensures
            match place {
                Some(place) => self@.occupies(place as int, key@),
                None => !holds(places(self@.slots), key@),
            },
    {
        let hash: u64 = lock_hash(key);
        let ghost all = places(self@.slots);
        let ghost home = home_of(hash, LOCK_STATE_CAPACITY as int);
        let mut steps: usize = 0;
        while steps < LOCK_STATE_CAPACITY
            invariant
                steps <= LOCK_STATE_CAPACITY,
                self.wf(),
                all == places(self@.slots),
                hash == key_hash(key@),
                home == home_of(hash, LOCK_STATE_CAPACITY as int),
                unmet(all, hasher(), key@, steps as int),
            decreases LOCK_STATE_CAPACITY - steps,
        {
            let index: usize = probe_index(hash, steps, LOCK_STATE_CAPACITY);
            assert(all[index as int] == self.slots@[index as int]@.place());
            assert(self@.slots[index as int] == self.slots@[index as int]@);
            match &self.slots[index] {
                LockSlot::Empty => {
                    proof {
                        lemma_absent(all, hasher(), key@, steps as int);
                    }
                    return None;
                },
                LockSlot::Tombstone => {},
                LockSlot::Foreign { .. } => {},
                LockSlot::Occupied { key_hash, lease } => {
                    if *key_hash == hash && lease.key.same(key) {
                        return Some(index);
                    }
                },
            }
            steps = steps + 1;
        }
        proof {
            lemma_absent(all, hasher(), key@, steps as int);
        }
        None
    }

    /// The place of the tenure of this key that is not over. A tenure that is
    /// over leaves its place.
    fn live_slot(&mut self, key: &LockKey, now_ms: u64) -> (place: Option<usize>)
        requires
            old(self).wf(),
        ensures
            final(self).wf(),
            old(self)@.numbered() ==> final(self)@.numbered(),
            final(self)@.next_lock == old(self)@.next_lock,
            final(self)@.next_revision == old(self)@.next_revision,
            swept(old(self)@.slots, final(self)@.slots, now_ms),
            match place {
                Some(place) => {
                    &&& final(self)@.occupies(place as int, key@)
                    &&& old(self)@.live(key@, now_ms) == Some(
                        final(self)@.slots[place as int]->Occupied_0,
                    )
                },
                None => old(self)@.live(key@, now_ms) is None,
            },
    {
        let ghost before = self@;
        let place: usize = match self.find_slot(key) {
            Some(place) => place,
            None => {
                proof {
                    assert forall|i: int| !(#[trigger] before.live_at(i, key@, now_ms)) by {
                        if before.live_at(i, key@, now_ms) {
                            assert(places(before.slots)[i] == Place::Held(key@));
                        }
                    }
                }
                return None;
            },
        };
        assert(self@.slots[place as int] == self.slots@[place as int]@);
        let over: bool = match &self.slots[place] {
            LockSlot::Occupied { key_hash: _, lease } => lease.is_expired_at(now_ms),
            _ => false,
        };
        if over {
            self.tombstone(place);
            proof {
                assert forall|i: int| !(#[trigger] before.live_at(i, key@, now_ms)) by {
                    if before.live_at(i, key@, now_ms) {
                        assert(places(before.slots)[i] == Place::Held(key@));
                        assert(places(before.slots)[place as int] == Place::Held(key@));
                    }
                }
            }
            None
        } else {
            proof {
                assert(before.live_at(place as int, key@, now_ms));
                lemma_live_at(before, place as int, key@, now_ms);
            }
            Some(place)
        }
    }

    fn lease_at(&self, place: usize) -> (lease: LockLease)
        requires
            place < self@.slots.len(),
            self@.slots[place as int] is Occupied,
        ensures
            lease@ == self@.slots[place as int]->Occupied_0,
    {
        assert(self@.slots[place as int] == self.slots@[place as int]@);
        match &self.slots[place] {
            LockSlot::Occupied { key_hash: _, lease } => lease.clone(),
            _ => unreached(),
        }
    }

    fn mint_lock_id(&mut self, state_kind: u8, node: u16) -> (id: Result<NetId64, Error>)
        requires
            old(self).wf(),
        ensures
            final(self).wf(),
            old(self)@.numbered() ==> final(self)@.numbered(),
            final(self)@.slots == old(self)@.slots,
            final(self)@.next_revision == old(self)@.next_revision,
            if old(self)@.next_lock >= LOCK_COUNTER_MAX {
                &&& id == Err::<NetId64, Error>(Error::IdExhausted)
                &&& final(self)@.next_lock == old(self)@.next_lock
            } else {
                &&& id == Ok::<NetId64, Error>(
                    NetId64::of(state_kind, node, (old(self)@.next_lock + 1) as u64),
                )
                &&& final(self)@.next_lock == old(self)@.next_lock + 1
            },
    {
        if self.next_lock >= LOCK_COUNTER_MAX {
            return Err(Error::IdExhausted);
        }
        let counter: u64 = self.next_lock + 1;
        self.next_lock = counter;
        Ok(NetId64::make(state_kind, node, counter))
    }

    fn mint_revision(&mut self) -> (revision: Result<u64, Error>)
        requires
            old(self).wf(),
        ensures
            final(self).wf(),
            old(self)@.numbered() ==> final(self)@.numbered(),
            final(self)@.slots == old(self)@.slots,
            final(self)@.next_lock == old(self)@.next_lock,
            if old(self)@.next_revision == u64::MAX {
                &&& revision == Err::<u64, Error>(Error::IdExhausted)
                &&& final(self)@.next_revision == old(self)@.next_revision
            } else {
                &&& revision == Ok::<u64, Error>((old(self)@.next_revision + 1) as u64)
                &&& final(self)@.next_revision == old(self)@.next_revision + 1
            },
    {
        match self.next_revision.checked_add(1) {
            Some(revision) => {
                self.next_revision = revision;
                Ok(revision)
            },
            None => Err(Error::IdExhausted),
        }
    }

    /// The first step of an attempt to acquire a lock: finds the current holder,
    /// or a place and a fresh tenure. Tenures that are over and met on the way
    /// leave their places.
    pub fn prepare_acquire(
        &mut self,
        state_kind: u8,
        node: u16,
        key: &LockKey,
        owner: &LockOwner,
        now_ms: u64,
        expires_at_ms: u64,
    ) -> (plan: Result<AcquirePlan, Error>)
        requires
            old(self).wf(),
        ensures
            final(self).wf(),
            old(self)@.numbered() ==> final(self)@.numbered(),
            swept(old(self)@.slots, final(self)@.slots, now_ms),
            acquire_planned(
                old(self)@,
                final(self)@,
                state_kind,
                node,
                key@,
                owner@,
                now_ms,
                expires_at_ms,
                plan,
            ),
    {
        match validate_entry(key, owner) {
            Ok(_) => {},
            Err(error) => {
                return Err(error);
            },
        }
        let hash: u64 = lock_hash(key);
        let ghost before = self@;
        let ghost home = home_of(hash, LOCK_STATE_CAPACITY as int);
        let mut insertion: Option<usize> = None;
        let ghost mut entry: int = 0;
        let mut steps: usize = 0;
        let mut ended: bool = false;
        while steps < LOCK_STATE_CAPACITY && !ended
            invariant
                steps <= LOCK_STATE_CAPACITY,
                self.wf(),
                before == old(self)@,
                before.wf(),
                hash == key_hash(key@),
                home == home_of(hash, LOCK_STATE_CAPACITY as int),
                swept(before.slots, self@.slots, now_ms),
                self@.next_lock == before.next_lock,
                self@.next_revision == before.next_revision,
                entry_fault(key@, owner@) is None,
                unmet(places(self@.slots), hasher(), key@, steps as int),
                ended ==> steps < LOCK_STATE_CAPACITY && places(self@.slots)[probed(
                    home,
                    steps as int,
                    LOCK_STATE_CAPACITY as int,
                )] is Empty && insertion is Some,
                match insertion {
                    Some(place) => {
                        &&& 0 <= entry <= steps
                        &&& entry < LOCK_STATE_CAPACITY
                        &&& entry == steps ==> ended
                        &&& place == probed(home, entry, LOCK_STATE_CAPACITY as int)
                        &&& place < LOCK_STATE_CAPACITY
                        &&& {
                            ||| self@.slots[place as int] is Empty
                            ||| self@.slots[place as int] is Tombstone
                        }
                        &&& !before.slots[place as int].taken(now_ms)
                    },
                    None => forall|e: int|
                        0 <= e < steps ==> (#[trigger] before.slots[probed(
                            home,
                            e,
                            LOCK_STATE_CAPACITY as int,
                        )]).taken(now_ms),
                },
            decreases LOCK_STATE_CAPACITY - steps, if ended { 0int } else { 1 },
        {
            let index: usize = probe_index(hash, steps, LOCK_STATE_CAPACITY);
            let ghost all = places(self@.slots);
            assert(all[index as int] == self@.slots[index as int].place());
            assert(self@.slots[index as int] == self.slots@[index as int]@);
            assert(swept(before.slots, self@.slots, now_ms));
            let mut over: bool = false;
            match &self.slots[index] {
                LockSlot::Empty => {
                    if insertion.is_none() {
                        insertion = Some(index);
                        proof {
                            entry = steps as int;
                        }
                    }
                    ended = true;
                },
                LockSlot::Tombstone => {
                    if insertion.is_none() {
                        insertion = Some(index);
                        proof {
                            entry = steps as int;
                        }
                    }
                },
                LockSlot::Occupied { key_hash, lease } => {
                    if lease.is_expired_at(now_ms) {
                        over = true;
                    } else if *key_hash == hash && lease.key.same(key) {
                        let held = lease.clone();
                        proof {
                            assert(before.slots[index as int] == self@.slots[index as int]);
                            assert(before.live_at(index as int, key@, now_ms));
                            lemma_live_at(before, index as int, key@, now_ms);
                        }
                        return Ok(AcquirePlan::Held(held));
                    }
                },
                LockSlot::Foreign { bytes } => {
                    assert(self@.slots[index as int].fits());
                    over = bytes[0] == 1 && read_u64(bytes.as_slice(), 40) <= now_ms;
                },
            }
            if over {
                let ghost middle = self@;
                self.tombstone(index);
                if insertion.is_none() {
                    insertion = Some(index);
                    proof {
                        entry = steps as int;
                    }
                }
                proof {
                    lemma_swept_twice(before.slots, middle.slots, self@.slots, now_ms);
                    assert forall|e: int| 0 <= e < steps implies {
                        let place = #[trigger] places(self@.slots)[probed(
                            home,
                            e,
                            LOCK_STATE_CAPACITY as int,
                        )];
                        place != Place::Held(key@) && !(place is Empty)
                    } by {
                        lemma_probed_inside(home, e, LOCK_STATE_CAPACITY as int);
                        assert(places(middle.slots)[probed(home, e, LOCK_STATE_CAPACITY as int)]
                            != Place::Held(key@));
                    }
                }
            }
            if !ended {
                steps = steps + 1;
            }
        }
        proof {
            lemma_absent(places(self@.slots), hasher(), key@, steps as int);
            assert forall|i: int| !(#[trigger] before.live_at(i, key@, now_ms)) by {
                if before.live_at(i, key@, now_ms) {
                    assert(self@.slots[i] == before.slots[i]);
                    assert(places(self@.slots)[i] == Place::Held(key@));
                }
            }
        }
        let place: usize = match insertion {
            Some(place) => place,
            None => {
                proof {
                    assert forall|i: int| 0 <= i < before.slots.len() implies (
                    #[trigger] before.slots[i]).taken(now_ms) by {
                        lemma_steps(home, i, LOCK_STATE_CAPACITY as int);
                    }
                }
                return Err(Error::StateFull { capacity: LOCK_STATE_CAPACITY });
            },
        };
        assert(!before.full(now_ms));
        proof {
            assert forall|e: int| 0 <= e < entry implies !(#[trigger] places(self@.slots)[probed(
                home,
                e,
                LOCK_STATE_CAPACITY as int,
            )] is Empty) by {}
            lemma_put(places(self@.slots), hasher(), key@, entry);
        }
        let lock_id = match self.mint_lock_id(state_kind, node) {
            Ok(id) => id,
            Err(error) => {
                return Err(error);
            },
        };
        let state_revision: u64 = match self.mint_revision() {
            Ok(revision) => revision,
            Err(error) => {
                return Err(error);
            },
        };
        let lease = LockLease {
            lock_id,
            key: key.clone(),
            owner: owner.clone(),
            acquired_at_ms: now_ms,
            expires_at_ms,
            state_revision,
        };
        Ok(AcquirePlan::Free { place, lease })
    }

    /// The second step of an attempt to acquire a lock: writes the tenure.
    pub fn commit_acquire(&mut self, place: usize, lease: LockLease)
        requires
            old(self).wf(),
            old(self)@.admits(place as int, lease@.key),
            lease@.fits(),
        ensures
            final(self).wf(),
            old(self)@.numbered() && lease@.token() <= old(self)@.next_lock
                && lease@.state_revision <= old(self)@.next_revision ==> final(self)@.numbered(),
            final(self)@ == old(self)@.write(place as int, lease@),
    {
        let ghost before = self@;
        let ghost said = lease@;
        let hash: u64 = lock_hash(&lease.key);
        self.set_slot(place, LockSlot::Occupied { key_hash: hash, lease });
        proof {
            assert(places(self@.slots) =~= places(before.slots).update(
                place as int,
                Place::Held(said.key),
            ));
        }
    }

    fn prepare_renewal(&mut self, place: usize, requested_expires_at_ms: u64) -> (plan: Result<
        LockLease,
        Error,
    >)
        requires
            old(self).wf(),
            place < old(self)@.slots.len(),
            old(self)@.slots[place as int] is Occupied,
        ensures
            final(self).wf(),
            old(self)@.numbered() ==> final(self)@.numbered(),
            final(self)@.slots == old(self)@.slots,
            final(self)@.next_lock == old(self)@.next_lock,
            if old(self)@.next_revision == u64::MAX {
                &&& plan == Err::<LockLease, Error>(Error::IdExhausted)
                &&& final(self)@ == old(self)@
            } else {
                &&& plan is Ok
                &&& plan->Ok_0@ == renewed(
                    old(self)@.slots[place as int]->Occupied_0,
                    requested_expires_at_ms,
                    (old(self)@.next_revision + 1) as u64,
                )
                &&& final(self)@.next_revision == old(self)@.next_revision + 1
            },
    {
        let mut lease = self.lease_at(place);
        lease.expires_at_ms = max_u64(lease.expires_at_ms, requested_expires_at_ms);
        match self.mint_revision() {
            Ok(revision) => {
                lease.state_revision = revision;
                Ok(lease)
            },
            Err(error) => Err(error),
        }
    }

    /// The first step of a renewal by an exact tenure.
    pub fn prepare_renew_id(
        &mut self,
        lease: &LockLease,
        now_ms: u64,
        requested_expires_at_ms: u64,
    ) -> (plan: Result<Option<(usize, LockLease)>, Error>)
        requires
            old(self).wf(),
        ensures
            final(self).wf(),
            old(self)@.numbered() ==> final(self)@.numbered(),
            swept(old(self)@.slots, final(self)@.slots, now_ms),
            match entry_fault(lease@.key, lease@.owner) {
                Some(error) => plan == Err::<Option<(usize, LockLease)>, Error>(error)
                    && final(self)@ == old(self)@,
                None => renewal_planned(
                    old(self)@,
                    final(self)@,
                    lease@.key,
                    old(self)@.live(lease@.key, now_ms) matches Some(current) && current.lock_id
                        == lease@.lock_id,
                    now_ms,
                    requested_expires_at_ms,
                    plan,
                ),
            },
    {
        match validate_entry(&lease.key, &lease.owner) {
            Ok(_) => {},
            Err(error) => {
                return Err(error);
            },
        }
        let place: usize = match self.live_slot(&lease.key, now_ms) {
            Some(place) => place,
            None => {
                return Ok(None);
            },
        };
        let current = self.lease_at(place);
        if current.lock_id != lease.lock_id {
            return Ok(None);
        }
        match self.prepare_renewal(place, requested_expires_at_ms) {
            Ok(renewal) => Ok(Some((place, renewal))),
            Err(error) => Err(error),
        }
    }

    /// The first step of a renewal by the owner's identity.
    pub fn prepare_renew_owner(
        &mut self,
        key: &LockKey,
        owner: &LockOwner,
        now_ms: u64,
        requested_expires_at_ms: u64,
    ) -> (plan: Result<Option<(usize, LockLease)>, Error>)
        requires
            old(self).wf(),
        ensures
            final(self).wf(),
            old(self)@.numbered() ==> final(self)@.numbered(),
            swept(old(self)@.slots, final(self)@.slots, now_ms),
            match entry_fault(key@, owner@) {
                Some(error) => plan == Err::<Option<(usize, LockLease)>, Error>(error)
                    && final(self)@ == old(self)@,
                None => renewal_planned(
                    old(self)@,
                    final(self)@,
                    key@,
                    old(self)@.live(key@, now_ms) matches Some(current) && current.owner == owner@,
                    now_ms,
                    requested_expires_at_ms,
                    plan,
                ),
            },
    {
        match validate_entry(key, owner) {
            Ok(_) => {},
            Err(error) => {
                return Err(error);
            },
        }
        let place: usize = match self.live_slot(key, now_ms) {
            Some(place) => place,
            None => {
                return Ok(None);
            },
        };
        let current = self.lease_at(place);
        if !same_bytes(current.owner.as_bytes(), owner.as_bytes()) {
            return Ok(None);
        }
        match self.prepare_renewal(place, requested_expires_at_ms) {
            Ok(renewal) => Ok(Some((place, renewal))),
            Err(error) => Err(error),
        }
    }

    /// The second step of a renewal: writes the renewed tenure.
    pub fn commit_renew(&mut self, place: usize, lease: LockLease)
        requires
            old(self).wf(),
            old(self)@.occupies(place as int, lease@.key),
            lease@.fits(),
        ensures
            final(self).wf(),
            old(self)@.numbered() && lease@.token() <= old(self)@.next_lock
                && lease@.state_revision <= old(self)@.next_revision ==> final(self)@.numbered(),
            final(self)@ == old(self)@.write(place as int, lease@),
    {
        let ghost before = self@;
        let ghost said = lease@;
        let hash: u64 = lock_hash(&lease.key);
        self.set_slot(place, LockSlot::Occupied { key_hash: hash, lease });
        proof {
            assert(places(before.slots)[place as int] == Place::Held(said.key));
            assert(places(self@.slots) =~= places(before.slots));
        }
    }

    fn prepare_release(&mut self, place: usize) -> (plan: Result<LockLease, Error>)
        requires
            old(self).wf(),
            place < old(self)@.slots.len(),
            old(self)@.slots[place as int] is Occupied,
        ensures
            final(self).wf(),
            old(self)@.numbered() ==> final(self)@.numbered(),
            final(self)@.slots == old(self)@.slots,
            final(self)@.next_lock == old(self)@.next_lock,
            if old(self)@.next_revision == u64::MAX {
                &&& plan == Err::<LockLease, Error>(Error::IdExhausted)
                &&& final(self)@ == old(self)@
            } else {
                &&& plan is Ok
                &&& plan->Ok_0@ == (LeaseView {
                    state_revision: (old(self)@.next_revision + 1) as u64,
                    ..old(self)@.slots[place as int]->Occupied_0
                })
                &&& final(self)@.next_revision == old(self)@.next_revision + 1
            },
    {
        let mut lease = self.lease_at(place);
        match self.mint_revision() {
            Ok(revision) => {
                lease.state_revision = revision;
                Ok(lease)
            },
            Err(error) => Err(error),
        }
    }

    /// The first step of a release by an exact tenure. The planned tenure
    /// carries the revision of its release.
    pub fn prepare_release_id(&mut self, lease: &LockLease, now_ms: u64) -> (plan: Result<
        Option<(usize, LockLease)>,
        Error,
    >)
        requires
            old(self).wf(),
        ensures
            final(self).wf(),
            old(self)@.numbered() ==> final(self)@.numbered(),
            swept(old(self)@.slots, final(self)@.slots, now_ms),
            match entry_fault(lease@.key, lease@.owner) {
                Some(error) => plan == Err::<Option<(usize, LockLease)>, Error>(error)
                    && final(self)@ == old(self)@,
                None => release_planned(
                    old(self)@,
                    final(self)@,
                    lease@.key,
                    old(self)@.live(lease@.key, now_ms) matches Some(current) && current.lock_id
                        == lease@.lock_id,
                    now_ms,
                    plan,
                ),
            },
    {
        match validate_entry(&lease.key, &lease.owner) {
            Ok(_) => {},
            Err(error) => {
                return Err(error);
            },
        }
        let place: usize = match self.live_slot(&lease.key, now_ms) {
            Some(place) => place,
            None => {
                return Ok(None);
            },
        };
        let current = self.lease_at(place);
        if current.lock_id != lease.lock_id {
            return Ok(None);
        }
        match self.prepare_release(place) {
            Ok(released) => Ok(Some((place, released))),
            Err(error) => Err(error),
        }
    }

    /// The first step of a release by the owner's identity.
    pub fn prepare_release_owner(&mut self, key: &LockKey, owner: &LockOwner, now_ms: u64) -> (plan:
        Result<Option<(usize, LockLease)>, Error>)
        requires
            old(self).wf(),
        ensures
            final(self).wf(),
            old(self)@.numbered() ==> final(self)@.numbered(),
            swept(old(self)@.slots, final(self)@.slots, now_ms),
            match entry_fault(key@, owner@) {
                Some(error) => plan == Err::<Option<(usize, LockLease)>, Error>(error)
                    && final(self)@ == old(self)@,
                None => release_planned(
                    old(self)@,
                    final(self)@,
                    key@,
                    old(self)@.live(key@, now_ms) matches Some(current) && current.owner == owner@,
                    now_ms,
                    plan,
                ),
            },
    {
        match validate_entry(key, owner) {
            Ok(_) => {},
            Err(error) => {
                return Err(error);
            },
        }
        let place: usize = match self.live_slot(key, now_ms) {
            Some(place) => place,
            None => {
                return Ok(None);
            },
        };
        let current = self.lease_at(place);
        if !same_bytes(current.owner.as_bytes(), owner.as_bytes()) {
            return Ok(None);
        }
        match self.prepare_release(place) {
            Ok(released) => Ok(Some((place, released))),
            Err(error) => Err(error),
        }
    }

    /// The first step of a release that asks for no owner.
    pub fn prepare_force_release(&mut self, key: &LockKey, now_ms: u64) -> (plan: Result<
        Option<(usize, LockLease)>,
        Error,
    >)
        requires
            old(self).wf(),
        ensures
            final(self).wf(),
            old(self)@.numbered() ==> final(self)@.numbered(),
            swept(old(self)@.slots, final(self)@.slots, now_ms),
            match key_fault(key@) {
                Some(error) => plan == Err::<Option<(usize, LockLease)>, Error>(error)
                    && final(self)@ == old(self)@,
                None => release_planned(
                    old(self)@,
                    final(self)@,
                    key@,
                    old(self)@.live(key@, now_ms) is Some,
                    now_ms,
                    plan,
                ),
            },
    {
        match validate_key(key) {
            Ok(_) => {},
            Err(error) => {
                return Err(error);
            },
        }
        let place: usize = match self.live_slot(key, now_ms) {
            Some(place) => place,
            None => {
                return Ok(None);
            },
        };
        match self.prepare_release(place) {
            Ok(released) => Ok(Some((place, released))),
            Err(error) => Err(error),
        }
    }

    /// The second step of a release: gives the place up.
    pub fn commit_release(&mut self, place: usize)
        requires
            old(self).wf(),
            place < old(self)@.slots.len(),
        ensures
            final(self).wf(),
            old(self)@.numbered() ==> final(self)@.numbered(),
            final(self)@ == old(self)@.give_up(place as int),
    {
        self.tombstone(place);
    }

    /// The tenure of a key that is not over.
    pub fn current(&mut self, key: &LockKey, now_ms: u64) -> (lease: Result<
        Option<LockLease>,
        Error,
    >)
        requires
            old(self).wf(),
        ensures
            final(self).wf(),
            old(self)@.numbered() ==> final(self)@.numbered(),
            swept(old(self)@.slots, final(self)@.slots, now_ms),
            final(self)@.next_lock == old(self)@.next_lock,
            final(self)@.next_revision == old(self)@.next_revision,
            match key_fault(key@) {
                Some(error) => lease == Err::<Option<LockLease>, Error>(error),
                None => lease is Ok && lease_view(lease->Ok_0) == old(self)@.live(key@, now_ms),
            },
    {
        match validate_key(key) {
            Ok(_) => {},
            Err(error) => {
                return Err(error);
            },
        }
        match self.live_slot(key, now_ms) {
            Some(place) => Ok(Some(self.lease_at(place))),
            None => Ok(None),
        }
    }
}

/// A tenure after its renewal: its end never moves to an earlier time.
pub open spec fn renewed(lease: LeaseView, requested: u64, revision: u64) -> LeaseView {
    LeaseView {
        expires_at_ms: if lease.expires_at_ms >= requested {
            lease.expires_at_ms
        } else {
            requested
        },
        state_revision: revision,
        ..lease
    }
}

/// The tenure that an attempt to acquire a free lock mints.
pub open spec fn minted(
    table: TableView,
    state_kind: u8,
    node: u16,
    key: KeyView,
    owner: Seq<u8>,
    now_ms: u64,
    expires_at_ms: u64,
) -> LeaseView {
    LeaseView {
        lock_id: NetId64::of(state_kind, node, (table.next_lock + 1) as u64),
        key,
        owner,
        acquired_at_ms: now_ms,
        expires_at_ms,
        state_revision: (table.next_revision + 1) as u64,
    }
}

/// What the first step of an attempt to acquire a lock gives.
pub open spec fn acquire_planned(
    before: TableView,
    after: TableView,
    state_kind: u8,
    node: u16,
    key: KeyView,
    owner: Seq<u8>,
    now_ms: u64,
    expires_at_ms: u64,
    plan: Result<AcquirePlan, Error>,
) -> bool {
    match entry_fault(key, owner) {
        Some(error) => plan == Err::<AcquirePlan, Error>(error) && after == before,
        None => match before.live(key, now_ms) {
            Some(lease) => {
                &&& plan matches Ok(AcquirePlan::Held(held)) && held@ == lease
                &&& after.next_lock == before.next_lock
                &&& after.next_revision == before.next_revision
            },
            None => if before.full(now_ms) {
                &&& plan == Err::<AcquirePlan, Error>(
                    Error::StateFull { capacity: LOCK_STATE_CAPACITY },
                )
                &&& after.next_lock == before.next_lock
                &&& after.next_revision == before.next_revision
            } else if before.next_lock >= LOCK_COUNTER_MAX {
                &&& plan == Err::<AcquirePlan, Error>(Error::IdExhausted)
                &&& after.next_lock == before.next_lock
                &&& after.next_revision == before.next_revision
            } else if before.next_revision == u64::MAX {
                &&& plan == Err::<AcquirePlan, Error>(Error::IdExhausted)
                &&& after.next_lock == before.next_lock + 1
                &&& after.next_revision == before.next_revision
            } else {
                &&& plan matches Ok(AcquirePlan::Free { place, lease }) && after.admits(
                    place as int,
                    key,
                ) && lease@ == minted(before, state_kind, node, key, owner, now_ms, expires_at_ms)
                &&& after.next_lock == before.next_lock + 1
                &&& after.next_revision == before.next_revision + 1
            },
        },
    }
}

/// What the first step of a renewal gives, where `entitled` says whether the
/// caller may renew.
pub open spec fn renewal_planned(
    before: TableView,
    after: TableView,
    key: KeyView,
    entitled: bool,
    now_ms: u64,
    requested_expires_at_ms: u64,
    plan: Result<Option<(usize, LockLease)>, Error>,
) -> bool {
    &&& after.next_lock == before.next_lock
    &&& if !entitled {
        &&& plan == Ok::<Option<(usize, LockLease)>, Error>(None)
        &&& after.next_revision == before.next_revision
    } else if before.next_revision == u64::MAX {
        &&& plan == Err::<Option<(usize, LockLease)>, Error>(Error::IdExhausted)
        &&& after.next_revision == before.next_revision
    } else {
        &&& plan matches Ok(Some((place, lease))) && after.occupies(place as int, key)
            && after.slots[place as int]->Occupied_0 == before.live(key, now_ms)->0 && lease@
            == renewed(
            before.live(key, now_ms)->0,
            requested_expires_at_ms,
            (before.next_revision + 1) as u64,
        )
        &&& after.next_revision == before.next_revision + 1
    }
}

/// What the first step of a release gives, where `entitled` says whether the
/// caller may release.
pub open spec fn release_planned(
    before: TableView,
    after: TableView,
    key: KeyView,
    entitled: bool,
    now_ms: u64,
    plan: Result<Option<(usize, LockLease)>, Error>,
) -> bool {
    &&& after.next_lock == before.next_lock
    &&& if !entitled {
        &&& plan == Ok::<Option<(usize, LockLease)>, Error>(None)
        &&& after.next_revision == before.next_revision
    } else if before.next_revision == u64::MAX {
        &&& plan == Err::<Option<(usize, LockLease)>, Error>(Error::IdExhausted)
        &&& after.next_revision == before.next_revision
    } else {
        &&& plan matches Ok(Some((place, lease))) && after.occupies(place as int, key)
            && after.slots[place as int]->Occupied_0 == before.live(key, now_ms)->0 && lease@ == (
        LeaseView {
            state_revision: (before.next_revision + 1) as u64,
            ..before.live(key, now_ms)->0
        })
        &&& after.next_revision == before.next_revision + 1
    }
}

} // verus!
