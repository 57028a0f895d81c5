//! The lock table as it stands in shared memory.
use vstd::prelude::*;
use vstd::slice::slice_subrange;

use crate::codec::{
    le16, le64, lemma_read_u16, lemma_read_u64, push_u16, push_u64, read_u16, read_u64, to_vec,
    u16_at, u64_at,
};
use crate::id::NetId64;
use crate::lock::keys::{KeyView, LeaseView, LockKey, LockLease, LockOwner};
use crate::lock::state::{
    hasher, key_hash, lemma_live_at, lock_hash, lock_header, places, slot_hashed, LockSlot,
    LockTable, SlotView, TableView, LOCK_STATE_CAPACITY, LOCK_STATE_PAYLOAD_MAX,
};
use crate::octets;
use crate::probe::{
    home_of, lemma_probed_inside, lemma_reachable, lemma_steps, probe_index, probed, probing,
    reachable, steps_to, unmet, Place,
};
use crate::table::{
    flat, header_bytes, lemma_header, lemma_slot_inside, push_zeroes, zeros, SegmentFault,
    StateHeader,
};

verus! {

broadcast use crate::codec::group_widths;

/// The header of the table.
pub open spec fn locks_header() -> StateHeader {
    StateHeader {
        magic: 0x4F4C_5354,
        version: 2,
        header_size: 64,
        capacity: LOCK_STATE_CAPACITY as u32,
        slot_size: 1_024,
    }
}

/// The fixed part of an occupied slot.
pub open spec fn lease_head(lease: LeaseView) -> Seq<u8> {
    seq![1u8, 0u8] + le16(lease.key.namespace.len() as u16) + le16(lease.key.label.len() as u16)
        + le16(lease.owner.len() as u16) + le64(key_hash(lease.key)) + le64(lease.lock_id.0) + le64(
        lease.state_revision,
    ) + le64(lease.acquired_at_ms) + le64(lease.expires_at_ms)
}

/// The bytes of a slot.
pub open spec fn slot_bytes(slot: SlotView) -> Seq<u8> {
    match slot {
        SlotView::Empty => zeros(1_024),
        SlotView::Tombstone => seq![2u8] + zeros(1_023),
        SlotView::Occupied(lease) => lease_head(lease) + lease.key.namespace + lease.key.label
            + lease.owner + zeros(
            (976 - lease.key.namespace.len() - lease.key.label.len() - lease.owner.len()) as nat,
        ),
        SlotView::Foreign(bytes) => bytes,
    }
}

/// The tenure that the bytes of an occupied slot spell.
pub open spec fn lease_in(bytes: Seq<u8>) -> LeaseView {
    let namespace_end = 48 + u16_at(bytes, 2);
    let key_end = namespace_end + u16_at(bytes, 4);
    let owner_end = key_end + u16_at(bytes, 6);
    LeaseView {
        lock_id: NetId64(u64_at(bytes, 16)),
        key: KeyView {
            namespace: bytes.subrange(48, namespace_end),
            label: bytes.subrange(namespace_end, key_end),
        },
        owner: bytes.subrange(key_end, owner_end),
        state_revision: u64_at(bytes, 24),
        acquired_at_ms: u64_at(bytes, 32),
        expires_at_ms: u64_at(bytes, 40),
    }
}

/// The slot of some bytes.
pub open spec fn slot_of(bytes: Seq<u8>) -> SlotView {
    if bytes[0] == 0 {
        SlotView::Empty
    } else if bytes[0] == 2 {
        SlotView::Tombstone
    } else if bytes[0] == 1 && u16_at(bytes, 2) + u16_at(bytes, 4) + u16_at(bytes, 6)
        <= LOCK_STATE_PAYLOAD_MAX && u64_at(bytes, 8) == key_hash(lease_in(bytes).key) {
        SlotView::Occupied(lease_in(bytes))
    } else {
        SlotView::Foreign(bytes)
    }
}

/// A slot that was written is read back.
pub proof fn lemma_slot_round_trip(slot: SlotView)
    requires
        slot.fits(),
    ensures
        slot_bytes(slot).len() == 1_024,
        !(slot is Foreign) ==> slot_of(slot_bytes(slot)) == slot,
{
    let bytes = slot_bytes(slot);
    match slot {
        SlotView::Empty => {
            assert(bytes[0] == 0);
        },
        SlotView::Tombstone => {
            assert(bytes[0] == 2);
        },
        SlotView::Occupied(lease) => {
            let head = lease_head(lease);
            assert(head.len() == 48);
            assert(bytes[0] == head[0]);
            assert(bytes.subrange(2, 4) =~= le16(lease.key.namespace.len() as u16));
            assert(bytes.subrange(4, 6) =~= le16(lease.key.label.len() as u16));
            assert(bytes.subrange(6, 8) =~= le16(lease.owner.len() as u16));
            assert(bytes.subrange(8, 16) =~= le64(key_hash(lease.key)));
            assert(bytes.subrange(16, 24) =~= le64(lease.lock_id.0));
            assert(bytes.subrange(24, 32) =~= le64(lease.state_revision));
            assert(bytes.subrange(32, 40) =~= le64(lease.acquired_at_ms));
            assert(bytes.subrange(40, 48) =~= le64(lease.expires_at_ms));
            lemma_read_u16(bytes, 2, lease.key.namespace.len() as u16);
            lemma_read_u16(bytes, 4, lease.key.label.len() as u16);
            lemma_read_u16(bytes, 6, lease.owner.len() as u16);
            lemma_read_u64(bytes, 8, key_hash(lease.key));
            lemma_read_u64(bytes, 16, lease.lock_id.0);
            lemma_read_u64(bytes, 24, lease.state_revision);
            lemma_read_u64(bytes, 32, lease.acquired_at_ms);
            lemma_read_u64(bytes, 40, lease.expires_at_ms);
            let namespace_end = 48 + lease.key.namespace.len() as int;
            let key_end = namespace_end + lease.key.label.len();
            assert(bytes.subrange(48, namespace_end) =~= lease.key.namespace);
            assert(bytes.subrange(namespace_end, key_end) =~= lease.key.label);
            assert(bytes.subrange(key_end, key_end + lease.owner.len()) =~= lease.owner);
        },
        SlotView::Foreign(other) => {},
    }
}

/// What follows the fields of the header: the two counters.
pub open spec fn counters_bytes(table: TableView) -> Seq<u8> {
    le64(table.next_lock) + le64(table.next_revision) + zeros(32)
}

/// The segment of a table.
pub open spec fn image(table: TableView) -> Seq<u8> {
    header_bytes(locks_header(), counters_bytes(table)) + flat(
        table.slots.map_values(|slot: SlotView| slot_bytes(slot)),
    )
}

/// What the slots of a segment hold, each by itself.
pub open spec fn found_in(bytes: Seq<u8>) -> Seq<SlotView> {
    Seq::new(LOCK_STATE_CAPACITY as nat, |i: int| slot_of(locks_header().slot_in(bytes, i)))
}

/// The table in a segment. A key at which a search for it does not end, as an empty
/// place or the same key comes before, is nobody's.
pub open spec fn table_of(bytes: Seq<u8>) -> TableView {
    TableView {
        slots: Seq::new(
            LOCK_STATE_CAPACITY as nat,
            |i: int|
                if reachable(places(found_in(bytes)), hasher(), i) {
                    found_in(bytes)[i]
                } else {
                    SlotView::Foreign(locks_header().slot_in(bytes, i))
                },
        ),
        next_lock: u64_at(bytes, 16),
        next_revision: u64_at(bytes, 24),
    }
}

/// Whatever the slots of a segment hold, searches work in the table.
pub proof fn lemma_searches_work(bytes: Seq<u8>)
    requires
        locks_header().segment_fault(bytes) is None,
    ensures
        table_of(bytes).wf(),
{
    let slots = table_of(bytes).slots;
    let raw = places(found_in(bytes));
    let all = places(slots);
    let capacity = LOCK_STATE_CAPACITY as int;
    assert forall|i: int| 0 <= i < all.len() implies #[trigger] reachable(all, hasher(), i) by {
        assert(all[i] == slots[i].place());
        assert(raw[i] == found_in(bytes)[i].place());
        if all[i] is Held {
            let key = all[i]->Held_0;
            let home = home_of(hasher()(key), capacity);
            let end = steps_to(home, i, capacity);
            assert forall|e: int| 0 <= e < end implies {
                let reached = #[trigger] all[probed(home, e, capacity)];
                reached != Place::Held(key) && !(reached is Empty)
            } by {
                lemma_probed_inside(home, e, capacity);
                let j = probed(home, e, capacity);
                assert(all[j] == slots[j].place());
                assert(raw[j] == found_in(bytes)[j].place());
                assert(raw[probed(home, e, capacity)] != Place::Held(key));
            }
        }
    }
    lemma_reachable(all, hasher());
    assert forall|i: int| 0 <= i < slots.len() implies (#[trigger] slots[i]).fits() by {
        lemma_slot_inside(locks_header(), i);
    }
}

/// A key in a slot of a segment has the tenure that is there where a search for it,
/// along the slots as they are, ends at the slot; where none does, the slot is nobody's.
pub proof fn law_tenures_are_what_a_search_finds(bytes: Seq<u8>, i: int, now_ms: u64)
    requires
        locks_header().segment_fault(bytes) is None,
        0 <= i < LOCK_STATE_CAPACITY,
        found_in(bytes)[i] is Occupied,
    ensures
        ({
            let lease = found_in(bytes)[i]->Occupied_0;
            let capacity = LOCK_STATE_CAPACITY as int;
            let steps = steps_to(home_of(key_hash(lease.key), capacity), i, capacity);
            let ends_here = unmet(places(found_in(bytes)), hasher(), lease.key, steps);
            &&& ends_here ==> table_of(bytes).occupies(i, lease.key)
            &&& ends_here ==> table_of(bytes).live(lease.key, now_ms) == if lease.expired(now_ms) {
                None
            } else {
                Some(lease)
            }
            &&& !ends_here ==> table_of(bytes).slots[i] is Foreign
        }),
{
    let lease = found_in(bytes)[i]->Occupied_0;
    let table = table_of(bytes);
    assert(places(found_in(bytes))[i] == found_in(bytes)[i].place());
    lemma_searches_work(bytes);
    if table.slots[i] is Occupied {
        if lease.expired(now_ms) {
            assert forall|j: int| !(#[trigger] table.live_at(j, lease.key, now_ms)) by {
                if table.live_at(j, lease.key, now_ms) {
                    assert(places(table.slots)[i] == Place::Held(lease.key));
                    assert(places(table.slots)[j] == Place::Held(lease.key));
                }
            }
        } else {
            assert(table.live_at(i, lease.key, now_ms));
            lemma_live_at(table, i, lease.key, now_ms);
        }
    }
}

/// What a process finds in a segment that a table was written to.
pub proof fn law_locks_survive_the_segment(table: TableView)
    requires
        table.wf(),
        forall|i: int| 0 <= i < table.slots.len() ==> !((#[trigger] table.slots[i]) is Foreign),
    ensures
        locks_header().segment_fault(image(table)) is None,
        table_of(image(table)) == table,
{
    let images = table.slots.map_values(|slot: SlotView| slot_bytes(slot));
    let rest = counters_bytes(table);
    let whole = image(table);
    assert(rest.len() == 48);
    assert forall|k: int| 0 <= k < images.len() implies (#[trigger] images[k]).len() == 1_024 by {
        lemma_slot_round_trip(table.slots[k]);
    }
    locks_header().lemma_image(rest, images, 0);
    assert forall|i: int| 0 <= i < LOCK_STATE_CAPACITY implies slot_of(
        #[trigger] locks_header().slot_in(whole, i),
    ) == table.slots[i] by {
        locks_header().lemma_image(rest, images, i);
        lemma_slot_round_trip(table.slots[i]);
    }
    lemma_header(locks_header(), rest, flat(images));
    assert(whole.subrange(16, 24) =~= le64(table.next_lock));
    assert(whole.subrange(24, 32) =~= le64(table.next_revision));
    lemma_read_u64(whole, 16, table.next_lock);
    lemma_read_u64(whole, 24, table.next_revision);
    assert(found_in(whole) =~= table.slots);
    assert forall|i: int| 0 <= i < LOCK_STATE_CAPACITY implies #[trigger] reachable(
        places(table.slots),
        hasher(),
        i,
    ) by {
        lemma_probing_reachable(table.slots, i);
    }
    assert(table_of(whole).slots =~= table.slots);
}

/// Slots that are nobody's stay as they are when a table that was opened is written
/// back.
pub proof fn law_foreign_slots_survive_the_segment(bytes: Seq<u8>)
    requires
        locks_header().segment_fault(bytes) is None,
    ensures
        locks_header().segment_fault(image(table_of(bytes))) is None,
        table_of(image(table_of(bytes))) == table_of(bytes),
{
    let table = table_of(bytes);
    let slots = table.slots;
    let images = slots.map_values(|slot: SlotView| slot_bytes(slot));
    let rest = counters_bytes(table);
    let whole = image(table);
    lemma_searches_work(bytes);
    assert(rest.len() == 48);
    assert forall|k: int| 0 <= k < images.len() implies (#[trigger] images[k]).len() == 1_024 by {
        lemma_slot_round_trip(slots[k]);
    }
    locks_header().lemma_image(rest, images, 0);
    assert forall|i: int| 0 <= i < LOCK_STATE_CAPACITY implies #[trigger] locks_header().slot_in(
        whole,
        i,
    ) == slot_bytes(slots[i]) by {
        locks_header().lemma_image(rest, images, i);
    }
    assert forall|i: int| 0 <= i < LOCK_STATE_CAPACITY implies #[trigger] found_in(whole)[i]
        == found_in(bytes)[i] by {
        assert(locks_header().slot_in(whole, i) == slot_bytes(slots[i]));
        lemma_slot_round_trip(slots[i]);
    }
    assert(found_in(whole) =~= found_in(bytes));
    lemma_header(locks_header(), rest, flat(images));
    assert(whole.subrange(16, 24) =~= le64(table.next_lock));
    assert(whole.subrange(24, 32) =~= le64(table.next_revision));
    lemma_read_u64(whole, 16, table.next_lock);
    lemma_read_u64(whole, 24, table.next_revision);
    assert forall|i: int| 0 <= i < LOCK_STATE_CAPACITY implies #[trigger] table_of(whole).slots[i]
        == slots[i] by {
        assert(locks_header().slot_in(whole, i) == slot_bytes(slots[i]));
    }
    assert(table_of(whole).slots =~= slots);
}

fn push_slot(bytes: &mut Vec<u8>, slot: &LockSlot)
    requires
        slot@.fits(),
        slot_hashed(*slot),
    ensures
        final(bytes)@ == old(bytes)@ + slot_bytes(slot@),
{
    match slot {
        LockSlot::Empty => {
            push_zeroes(bytes, 1_024);
        },
        LockSlot::Tombstone => {
            bytes.push(2);
            push_zeroes(bytes, 1_023);
            assert(bytes@ =~= old(bytes)@ + slot_bytes(slot@));
        },
        LockSlot::Occupied { key_hash: hash, lease } => {
            let namespace: &[u8] = lease.key.namespace();
            let label: &[u8] = lease.key.label();
            let owner: &[u8] = lease.owner.as_bytes();
            bytes.push(1);
            bytes.push(0);
            push_u16(bytes, namespace.len() as u16);
            push_u16(bytes, label.len() as u16);
            push_u16(bytes, owner.len() as u16);
            push_u64(bytes, *hash);
            push_u64(bytes, lease.lock_id.raw());
            push_u64(bytes, lease.state_revision);
            push_u64(bytes, lease.acquired_at_ms);
            push_u64(bytes, lease.expires_at_ms);
            assert(bytes@ =~= old(bytes)@ + lease_head(lease@));
            bytes.extend_from_slice(namespace);
            bytes.extend_from_slice(label);
            bytes.extend_from_slice(owner);
            push_zeroes(bytes, 976 - namespace.len() - label.len() - owner.len());
            assert(bytes@ =~= old(bytes)@ + slot_bytes(slot@));
        },
        LockSlot::Foreign { bytes: other } => {
            bytes.extend_from_slice(other.as_slice());
            assert(bytes@ =~= old(bytes)@ + slot_bytes(slot@));
        },
    }
}

fn read_slot(bytes: &[u8]) -> (slot: LockSlot)
    requires
        bytes@.len() == 1_024,
    ensures
        slot_of(bytes@) == slot@,
        slot_hashed(slot),
        slot@.fits(),
{
    if bytes[0] == 0 {
        return LockSlot::Empty;
    }
    if bytes[0] == 2 {
        return LockSlot::Tombstone;
    }
    let namespace_len: usize = read_u16(bytes, 2) as usize;
    let key_len: usize = read_u16(bytes, 4) as usize;
    let owner_len: usize = read_u16(bytes, 6) as usize;
    if bytes[0] != 1 || namespace_len + key_len + owner_len > LOCK_STATE_PAYLOAD_MAX {
        return LockSlot::Foreign { bytes: to_vec(bytes) };
    }
    let namespace_end: usize = 48 + namespace_len;
    let key_end: usize = namespace_end + key_len;
    let lease = LockLease {
        lock_id: NetId64::from_raw(read_u64(bytes, 16)),
        key: LockKey::from_parts(
            octets::copy_of(slice_subrange(bytes, 48, namespace_end)),
            octets::copy_of(slice_subrange(bytes, namespace_end, key_end)),
        ),
        owner: LockOwner::new(octets::copy_of(slice_subrange(bytes, key_end, key_end + owner_len))),
        state_revision: read_u64(bytes, 24),
        acquired_at_ms: read_u64(bytes, 32),
        expires_at_ms: read_u64(bytes, 40),
    };
    assert(lease@ == lease_in(bytes@));
    let hash: u64 = read_u64(bytes, 8);
    if hash != lock_hash(&lease.key) {
        return LockSlot::Foreign { bytes: to_vec(bytes) };
    }
    LockSlot::Occupied { key_hash: hash, lease }
}

/// True when the way to the key at a place meets neither an empty place nor the
/// key.
fn is_reachable(slots: &Vec<LockSlot>, place: usize) -> (result: bool)
    requires
        slots@.len() == LOCK_STATE_CAPACITY,
        place < LOCK_STATE_CAPACITY,
        forall|i: int| 0 <= i < slots@.len() ==> slot_hashed(#[trigger] slots@[i]),
    ensures
        result == reachable(
            places(slots@.map_values(|slot: LockSlot| slot@)),
            hasher(),
            place as int,
        ),
{
    let ghost views = slots@.map_values(|slot: LockSlot| slot@);
    let ghost all = places(views);
    assert(all[place as int] == slots@[place as int]@.place());
    assert(slot_hashed(slots@[place as int]));
    match &slots[place] {
        LockSlot::Empty => true,
        LockSlot::Tombstone => true,
        LockSlot::Foreign { .. } => true,
        LockSlot::Occupied { key_hash: hash, lease } => {
            let ghost key = lease.key@;
            let ghost home = home_of(key_hash(key), LOCK_STATE_CAPACITY as int);
            let ghost end = steps_to(home, place as int, LOCK_STATE_CAPACITY as int);
            proof {
                lemma_steps(home, place as int, LOCK_STATE_CAPACITY as int);
                assert(*hash == hasher()(key));
            }
            let mut steps: usize = 0;
            while steps < LOCK_STATE_CAPACITY
                invariant
                    steps <= end,
                    end < LOCK_STATE_CAPACITY,
                    key == lease.key@,
                    end == steps_to(home, place as int, LOCK_STATE_CAPACITY as int),
                    home == home_of(key_hash(key), LOCK_STATE_CAPACITY as int),
                    *hash == key_hash(key),
                    slots@.len() == LOCK_STATE_CAPACITY,
                    views == slots@.map_values(|slot: LockSlot| slot@),
                    all == places(views),
                    all[place as int] == Place::Held(key),
                    probed(home, end, LOCK_STATE_CAPACITY as int) == place,
                    forall|e: int|
                        0 <= e < LOCK_STATE_CAPACITY && #[trigger] probed(
                            home,
                            e,
                            LOCK_STATE_CAPACITY as int,
                        ) == place ==> e == end,
                    unmet(all, hasher(), key, steps as int),
                decreases LOCK_STATE_CAPACITY - steps,
            {
                let index: usize = probe_index(*hash, steps, LOCK_STATE_CAPACITY);
                assert(index == probed(home, steps as int, LOCK_STATE_CAPACITY as int));
                if index == place {
                    return true;
                }
                assert(steps < end);
                assert(all[index as int] == slots@[index as int]@.place());
                let meets: bool = match &slots[index] {
                    LockSlot::Empty => true,
                    LockSlot::Tombstone => false,
                    LockSlot::Foreign { .. } => false,
                    LockSlot::Occupied { lease: other, .. } => other.key.same(&lease.key),
                };
                if meets {
                    assert(!unmet(all, hasher(), key, end)) by {
                        let reached = all[probed(
                            home_of(hasher()(key), all.len() as int),
                            steps as int,
                            all.len() as int,
                        )];
                        assert(reached == all[index as int]);
                    }
                    return false;
                }
                steps = steps + 1;
            }
            true
        },
    }
}

/// In a table in which searches work, every key is reachable.
proof fn lemma_probing_reachable(views: Seq<SlotView>, place: int)
    requires
        probing(places(views), hasher()),
        0 <= place < views.len(),
    ensures
        reachable(places(views), hasher(), place),
{
    let all = places(views);
    let capacity = all.len() as int;
    if all[place] is Held {
        let key = all[place]->Held_0;
        let home = home_of(hasher()(key), capacity);
        let end = steps_to(home, place, capacity);
        lemma_steps(home, place, capacity);
        assert forall|e: int| 0 <= e < end implies {
            let reached = #[trigger] all[probed(home, e, capacity)];
            reached != Place::Held(key) && !(reached is Empty)
        } by {
            lemma_probed_inside(home, e, capacity);
            let j = probed(home, e, capacity);
            if all[j] == Place::Held(key) {
                assert(j != place);
                assert(all[j]->Held_0 != all[place]->Held_0);
            }
        }
    }
}

impl LockTable {
    /// The segment of the table.
    pub fn segment(&self) -> (bytes: Vec<u8>)
        requires
            self.wf(),
        ensures
            bytes@ == image(self@),
    {
        let slots: &Vec<LockSlot> = self.slots();
        let (next_lock, next_revision) = self.counters();
        let ghost images = self@.slots.map_values(|slot: SlotView| slot_bytes(slot));
        let mut bytes: Vec<u8> = Vec::new();
        lock_header().push(&mut bytes);
        push_u64(&mut bytes, next_lock);
        push_u64(&mut bytes, next_revision);
        push_zeroes(&mut bytes, 32);
        let ghost head = header_bytes(locks_header(), counters_bytes(self@));
        assert(bytes@ =~= head);
        let mut index: usize = 0;
        assert(images.subrange(0, 0) =~= Seq::<Seq<u8>>::empty());
        assert(bytes@ =~= head + flat(images.subrange(0, 0)));
        assert(slots@.len() == self@.slots.len());
        while index < slots.len()
            invariant
                index <= slots@.len(),
                self.wf(),
                slots@.map_values(|slot: LockSlot| slot@) == self@.slots,
                slots@.len() == self@.slots.len(),
                forall|i: int| 0 <= i < slots@.len() ==> slot_hashed(#[trigger] slots@[i]),
                images == self@.slots.map_values(|slot: SlotView| slot_bytes(slot)),
                bytes@ == head + flat(images.subrange(0, index as int)),
            decreases slots@.len() - index,
        {
            let ghost longer = images.subrange(0, index + 1);
            assert(longer.drop_last() =~= images.subrange(0, index as int));
            assert(slots@.map_values(|slot: LockSlot| slot@)[index as int]
                == slots@[index as int]@);
            assert(longer.last() == slot_bytes(slots@[index as int]@));
            push_slot(&mut bytes, &slots[index]);
            assert(bytes@ =~= head + flat(longer));
            index = index + 1;
        }
        assert(images.subrange(0, images.len() as int) =~= images);
        bytes
    }

    /// Opens a table over a segment that exists.
    pub fn open_segment(bytes: &[u8]) -> (table: Result<LockTable, SegmentFault>)
        ensures
            match table {
                Ok(table) => {
                    &&& table.wf()
                    &&& locks_header().segment_fault(bytes@) is None
                    &&& table@ == table_of(bytes@)
                },
                Err(fault) => locks_header().segment_fault(bytes@) == Some(fault),
            },
    {
        let header = lock_header();
        match header.check_segment(bytes) {
            Ok(_) => {},
            Err(fault) => {
                return Err(fault);
            },
        }
        let next_lock: u64 = read_u64(bytes, 16);
        let next_revision: u64 = read_u64(bytes, 24);
        let mut slots: Vec<LockSlot> = Vec::new();
        let mut index: usize = 0;
        while index < LOCK_STATE_CAPACITY
            invariant
                index <= LOCK_STATE_CAPACITY,
                locks_header().segment_fault(bytes@) is None,
                slots@.len() == index,
                forall|i: int|
                    0 <= i < index ==> slot_of(#[trigger] locks_header().slot_in(bytes@, i))
                        == slots@[i]@,
                forall|i: int| 0 <= i < index ==> slot_hashed(#[trigger] slots@[i]),
            decreases LOCK_STATE_CAPACITY - index,
        {
            proof {
                lemma_slot_inside(locks_header(), index as int);
            }
            let from: usize = 64 + index * 1_024;
            slots.push(read_slot(slice_subrange(bytes, from, from + 1_024)));
            index = index + 1;
        }
        let ghost views = slots@.map_values(|slot: LockSlot| slot@);
        assert(views =~= found_in(bytes@));
        let mut met: Vec<bool> = Vec::new();
        while met.len() < LOCK_STATE_CAPACITY
            invariant
                met@.len() <= LOCK_STATE_CAPACITY,
                slots@.len() == LOCK_STATE_CAPACITY,
                views == slots@.map_values(|slot: LockSlot| slot@),
                forall|i: int| 0 <= i < slots@.len() ==> slot_hashed(#[trigger] slots@[i]),
                forall|i: int|
                    0 <= i < met@.len() ==> #[trigger] met@[i] == reachable(
                        places(views),
                        hasher(),
                        i,
                    ),
            decreases LOCK_STATE_CAPACITY - met@.len(),
        {
            met.push(is_reachable(&slots, met.len()));
        }
        let mut place: usize = 0;
        while place < LOCK_STATE_CAPACITY
            invariant
                place <= LOCK_STATE_CAPACITY,
                slots@.len() == LOCK_STATE_CAPACITY,
                met@.len() == LOCK_STATE_CAPACITY,
                views == found_in(bytes@),
                locks_header().segment_fault(bytes@) is None,
                forall|i: int|
                    0 <= i < met@.len() ==> #[trigger] met@[i] == reachable(
                        places(views),
                        hasher(),
                        i,
                    ),
                forall|i: int| 0 <= i < slots@.len() ==> slot_hashed(#[trigger] slots@[i]),
                forall|i: int|
                    0 <= i < slots@.len() ==> (#[trigger] slots@[i])@ == if i < place {
                        table_of(bytes@).slots[i]
                    } else {
                        views[i]
                    },
            decreases LOCK_STATE_CAPACITY - place,
        {
            if !met[place] {
                proof {
                    lemma_slot_inside(locks_header(), place as int);
                }
                let from: usize = 64 + place * 1_024;
                let other: Vec<u8> = to_vec(slice_subrange(bytes, from, from + 1_024));
                slots.set(place, LockSlot::Foreign { bytes: other });
            }
            place = place + 1;
        }
        proof {
            lemma_searches_work(bytes@);
            assert(slots@.map_values(|slot: LockSlot| slot@) =~= table_of(bytes@).slots);
        }
        Ok(LockTable::from_parts(slots, next_lock, next_revision))
    }
}

/// Where the fields of a tenure stand in its slot.
pub proof fn law_lock_slot_layout(lease: LeaseView)
    requires
        lease.fits(),
    ensures
        ({
            let bytes = slot_bytes(SlotView::Occupied(lease));
            let payload = lease.key.namespace + lease.key.label + lease.owner;
            &&& bytes.len() == 1_024
            &&& bytes[0] == 1
            &&& u16_at(bytes, 2) == lease.key.namespace.len()
            &&& u16_at(bytes, 4) == lease.key.label.len()
            &&& u16_at(bytes, 6) == lease.owner.len()
            &&& u64_at(bytes, 8) == key_hash(lease.key)
            &&& u64_at(bytes, 16) == lease.lock_id.0
            &&& u64_at(bytes, 24) == lease.state_revision
            &&& u64_at(bytes, 32) == lease.acquired_at_ms
            &&& u64_at(bytes, 40) == lease.expires_at_ms
            &&& bytes.subrange(48, 48 + payload.len() as int) == payload
        }),
{
    lemma_slot_round_trip(SlotView::Occupied(lease));
    let bytes = slot_bytes(SlotView::Occupied(lease));
    let payload = lease.key.namespace + lease.key.label + lease.owner;
    assert(lease_head(lease).len() == 48);
    assert(bytes[0] == lease_head(lease)[0]);
    assert(bytes.subrange(2, 4) =~= le16(lease.key.namespace.len() as u16));
    assert(bytes.subrange(4, 6) =~= le16(lease.key.label.len() as u16));
    assert(bytes.subrange(6, 8) =~= le16(lease.owner.len() as u16));
    assert(bytes.subrange(8, 16) =~= le64(key_hash(lease.key)));
    assert(bytes.subrange(16, 24) =~= le64(lease.lock_id.0));
    assert(bytes.subrange(24, 32) =~= le64(lease.state_revision));
    assert(bytes.subrange(32, 40) =~= le64(lease.acquired_at_ms));
    assert(bytes.subrange(40, 48) =~= le64(lease.expires_at_ms));
    lemma_read_u16(bytes, 2, lease.key.namespace.len() as u16);
    lemma_read_u16(bytes, 4, lease.key.label.len() as u16);
    lemma_read_u16(bytes, 6, lease.owner.len() as u16);
    lemma_read_u64(bytes, 8, key_hash(lease.key));
    lemma_read_u64(bytes, 16, lease.lock_id.0);
    lemma_read_u64(bytes, 24, lease.state_revision);
    lemma_read_u64(bytes, 32, lease.acquired_at_ms);
    lemma_read_u64(bytes, 40, lease.expires_at_ms);
    assert(bytes.subrange(48, 48 + payload.len() as int) =~= payload);
}

} // verus!
