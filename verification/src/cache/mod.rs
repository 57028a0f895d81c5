//! Fleet-coherent local cache over rings.
//!
//! One [`Cache`] is the local handle on one cache connection: a mutation ring,
//! a payload ring and one mutation cursor. Logical stores share the connection
//! and keep bounded local state of their own. The rings carry mutations and
//! short-lived value bytes; they are no durable store.
use bytes::Bytes;
use std::marker::PhantomData;
use vstd::prelude::*;

use crate::cache::layout::{layout_fault, MutationRecord, PayloadRecord};
use crate::cache::local::{LocalView, OutcomeView};
use crate::cache::protocol::{
    deadline_field, key_fault, mutation_record, no_payload, store_fault, MutationView,
    FRAME_KIND_DELETE, FRAME_KIND_PUT, FRAME_KIND_RESET,
};
use crate::cache::resident::{EntryView, SlotView};
use crate::cache::transport::{
    deadline, emptied, mutation_views, next_payload, next_revision, put_fault, ready, recorded,
    stored, value_at, visible_loss, visible_malformed, visible_mutations,
};
use crate::codec::{same_bytes, to_vec};
use crate::fleet::cursor::{lane_heads, LaneCursorView};
use crate::fleet::rings::FleetRings;
use crate::fleet::FleetView;
use crate::octets;
use crate::octets::octets;
use crate::ring::cursor::RingLoss;

pub mod convergence;
pub mod error;
pub mod laws;
pub mod layout;
pub mod local;
pub mod promises;
pub mod protocol;
pub mod replication;
pub mod resident;
pub mod transport;

pub use crate::cache::error::Error;
pub use crate::cache::layout::{CacheLayout, DefaultCacheLayout};
pub use crate::cache::local::{ApplyOutcome, CacheRead, LocalCache};
pub use crate::cache::protocol::{CacheMutation, CacheRevision, PayloadRef};
pub use crate::cache::resident::CacheEntry;
pub use crate::cache::transport::{CacheMutationCursor, CacheMutationPoll, CacheTransport};

verus! {

/// Room of the default store.
pub const DEFAULT_L1_CAPACITY: usize = 10_000;

/// A cache entry's address: its store and its key.
#[derive(Debug, PartialEq, Eq)]
pub struct CacheAddress {
    pub store: Bytes,
    pub key: Bytes,
}

impl View for CacheAddress {
    type V = (Seq<u8>, Seq<u8>);

    open spec fn view(&self) -> (Seq<u8>, Seq<u8>) {
        (octets(self.store), octets(self.key))
    }
}

/// Result of dispatching all visible mutations to the local stores.
#[derive(Debug, PartialEq, Eq)]
pub struct CachePoll {
    pub observed: usize,
    pub applied: usize,
    pub ignored: usize,
    pub payload_unavailable: Vec<CacheAddress>,
    /// Addressed stores that this process has not opened.
    pub unknown_stores: Vec<Bytes>,
    pub loss: RingLoss,
    pub malformed: u64,
    pub resync_required: bool,
}

impl CachePoll {
    /// True when nothing was observed, lost or malformed.
    pub fn is_empty(&self) -> (empty: bool)
        ensures
            empty == (self.observed == 0 && self.loss.overwritten == 0 && self.loss.unavailable == 0
                && self.malformed == 0),
    {
        self.observed == 0 && self.loss.is_empty() && self.malformed == 0
    }
}

/// A store's name and what it holds locally.
pub type StoreItem = (Seq<u8>, LocalView);

/// True when a store of this name is open.
pub open spec fn has_store(stores: Seq<StoreItem>, name: Seq<u8>) -> bool {
    exists|i: int| 0 <= i < stores.len() && (#[trigger] stores[i]).0 == name
}

/// The place of an open store.
pub open spec fn store_place(stores: Seq<StoreItem>, name: Seq<u8>) -> int {
    choose|i: int| 0 <= i < stores.len() && (#[trigger] stores[i]).0 == name
}

/// No two stores have one name, and each is well formed.
pub open spec fn stores_wf(stores: Seq<StoreItem>) -> bool {
    &&& forall|i: int| 0 <= i < stores.len() ==> (#[trigger] stores[i]).1.wf()
    &&& forall|i: int, j: int|
        0 <= i < stores.len() && 0 <= j < stores.len() && i != j ==> (#[trigger] stores[i]).0 != (
        #[trigger] stores[j]).0
}

proof fn lemma_store_place(stores: Seq<StoreItem>, name: Seq<u8>, place: int)
    requires
        stores_wf(stores),
        0 <= place < stores.len(),
        stores[place].0 == name,
    ensures
        has_store(stores, name),
        store_place(stores, name) == place,
{
}

/// What a cache connection holds.
#[verifier::ext_equal]
pub struct CacheView {
    pub stores: Seq<StoreItem>,
    pub cursor: LaneCursorView,
}

/// Where the dispatch of mutations stands.
#[verifier::ext_equal]
pub struct DispatchView {
    pub stores: Seq<StoreItem>,
    pub applied: nat,
    pub ignored: nat,
    pub unavailable: Seq<(Seq<u8>, Seq<u8>)>,
    pub unknown: Seq<Seq<u8>>,
}

/// The value of a put, when all of it is still in the payload ring.
pub open spec fn value_of<L: CacheLayout>(fleet: FleetView, mutation: MutationView) -> Option<
    Seq<u8>,
> {
    match mutation {
        MutationView::Put { payload, .. } => value_at::<L>(fleet, payload),
        _ => None,
    }
}

impl DispatchView {
    /// The dispatch of one more mutation.
    pub open spec fn step<L: CacheLayout>(
        self,
        fleet: FleetView,
        mutation: MutationView,
    ) -> DispatchView {
        let name = mutation.store();
        if !has_store(self.stores, name) {
            DispatchView {
                ignored: self.ignored + 1,
                unknown: if self.unknown.contains(name) {
                    self.unknown
                } else {
                    self.unknown.push(name)
                },
                ..self
            }
        } else {
            let place = store_place(self.stores, name);
            let local = self.stores[place].1;
            let value = value_of::<L>(fleet, mutation);
            let stores = self.stores.update(place, (name, local.apply(mutation, value)));
            match local.outcome(mutation, value) {
                OutcomeView::Applied => DispatchView { stores, applied: self.applied + 1, ..self },
                OutcomeView::Ignored => DispatchView { stores, ignored: self.ignored + 1, ..self },
                OutcomeView::PayloadUnavailable { key } => DispatchView {
                    stores,
                    unavailable: self.unavailable.push((name, key)),
                    ..self
                },
            }
        }
    }

    /// The dispatch of these mutations, one after the other.
    pub open spec fn run<L: CacheLayout>(
        self,
        fleet: FleetView,
        mutations: Seq<MutationView>,
    ) -> DispatchView
        decreases mutations.len(),
    {
        if mutations.len() == 0 {
            self
        } else {
            self.run::<L>(fleet, mutations.drop_last()).step::<L>(fleet, mutations.last())
        }
    }
}

/// The stores before mutations are dispatched: a loss makes every store unsafe,
/// as the addressee of a missing mutation is unknown.
pub open spec fn before_dispatch(stores: Seq<StoreItem>, lost: bool) -> Seq<StoreItem> {
    if lost {
        stores.map_values(|item: StoreItem| (item.0, item.1.lost()))
    } else {
        stores
    }
}

/// What polling a cache connection gives: the mutations that are visible from
/// the cursor on, in the order of their revisions, are dispatched one after the
/// other.
pub open spec fn is_cache_poll<L: CacheLayout>(
    cache: CacheView,
    fleet: FleetView,
    after: Seq<StoreItem>,
    poll: CachePoll,
) -> bool {
    let mutations = visible_mutations::<L>(fleet, cache.cursor);
    let lost = poll.loss.sum() != 0 || poll.malformed != 0;
    let start = DispatchView {
        stores: before_dispatch(cache.stores, lost),
        applied: 0,
        ignored: 0,
        unavailable: Seq::empty(),
        unknown: Seq::empty(),
    };
    let end = start.run::<L>(fleet, mutations);
    &&& after == end.stores
    &&& poll.observed == mutations.len()
    &&& poll.applied == end.applied
    &&& poll.ignored == end.ignored
    &&& addresses(poll.payload_unavailable@) == end.unavailable
    &&& octets::all_octets(poll.unknown_stores@) == end.unknown
    &&& poll.loss == visible_loss::<L>(fleet, cache.cursor)
    &&& poll.malformed == visible_malformed::<L>(fleet, cache.cursor)
    &&& poll.resync_required == (exists|i: int|
        0 <= i < after.len() && !(#[trigger] after[i]).1.coherent)
}

/// What each address of a sequence says.
pub open spec fn addresses(list: Seq<CacheAddress>) -> Seq<(Seq<u8>, Seq<u8>)> {
    list.map_values(|address: CacheAddress| address@)
}

struct NamedStore {
    name: Vec<u8>,
    local: LocalCache,
}

impl NamedStore {
    spec fn item(self) -> StoreItem {
        (self.name@, self.local@)
    }
}

spec fn items_of(stores: Seq<NamedStore>) -> Seq<StoreItem> {
    stores.map_values(|store: NamedStore| store.item())
}

/// One cache connection of a process.
pub struct Cache<L: CacheLayout> {
    transport: CacheTransport<L>,
    stores: Vec<NamedStore>,
    cursor: CacheMutationCursor,
}

impl<L: CacheLayout> View for Cache<L> {
    type V = CacheView;

    closed spec fn view(&self) -> CacheView {
        CacheView { stores: items_of(self.stores@), cursor: self.cursor@ }
    }
}

/// One named store of a cache connection.
pub struct Store<L: CacheLayout> {
    place: usize,
    name: Bytes,
    layout: PhantomData<L>,
}

impl<L: CacheLayout> Store<L> {
    /// The store's name, as a specification.
    pub closed spec fn label(&self) -> Seq<u8> {
        octets(self.name)
    }

    /// The store's place among the connection's stores.
    pub closed spec fn index(&self) -> int {
        self.place as int
    }

    /// True when the store was opened on this connection.
    pub open spec fn belongs(&self, cache: CacheView) -> bool {
        &&& 0 <= self.index() < cache.stores.len()
        &&& cache.stores[self.index()].0 == self.label()
    }
}

fn contains_name(names: &Vec<Bytes>, name: &Bytes) -> (found: bool)
    ensures
        found == octets::all_octets(names@).contains(octets(*name)),
{
    let wanted: &[u8] = octets::as_slice(name);
    let ghost all = octets::all_octets(names@);
    let mut index: usize = 0;
    while index < names.len()
        invariant
            index <= names@.len(),
            all == octets::all_octets(names@),
            wanted@ == octets(*name),
            forall|i: int| 0 <= i < index ==> #[trigger] all[i] != octets(*name),
        decreases names@.len() - index,
    {
        assert(all[index as int] == octets(names@[index as int]));
        if same_bytes(octets::as_slice(&names[index]), wanted) {
            return true;
        }
        index = index + 1;
    }
    false
}

impl<L: CacheLayout> Cache<L> {
    /// Usable layout, distinct store names, well-formed stores.
    pub closed spec fn wf(&self) -> bool {
        self.transport.wf() && stores_wf(self@.stores)
    }

    /// What well-formedness says.
    pub proof fn lemma_wf(&self)
        requires
            self.wf(),
        ensures
            layout_fault::<L>() is None,
            stores_wf(self@.stores),
    {
    }

    /// Follows future mutations of one connection.
    pub fn new<F: FleetRings>(fleet: &F) -> (cache: Result<Cache<L>, Error>)
        requires
            fleet.sound(),
            layout_fault::<L>() is None ==> ready::<L>(fleet.held()),
        ensures
            match layout_fault::<L>() {
                Some(fault) => cache matches Err(Error::InvalidLayout(message)) && message@
                    == fault,
                None => {
                    &&& cache is Ok
                    &&& cache->Ok_0.wf()
                    &&& cache->Ok_0@ == (CacheView {
                        stores: Seq::empty(),
                        cursor: LaneCursorView {
                            positions: lane_heads(fleet.held().ring::<MutationRecord<L>>()),
                            initial: 0,
                        },
                    })
                    &&& cache->Ok_0@.cursor.fits(fleet.held().capacity)
                },
            },
    {
        let transport = match CacheTransport::<L>::new() {
            Ok(transport) => transport,
            Err(error) => {
                return Err(error);
            },
        };
        let cursor = transport.cursor_at_head(fleet);
        let cache = Cache { transport, stores: Vec::new(), cursor };
        assert(cache@.stores =~= Seq::<StoreItem>::empty());
        Ok(cache)
    }

    /// Follows the mutations that the ring still retains, and future ones.
    pub fn replay_retained<F: FleetRings>(fleet: &F) -> (cache: Result<Cache<L>, Error>)
        ensures
            match layout_fault::<L>() {
                Some(fault) => cache matches Err(Error::InvalidLayout(message)) && message@
                    == fault,
                None => {
                    &&& cache is Ok
                    &&& cache->Ok_0.wf()
                    &&& cache->Ok_0@ == (CacheView {
                        stores: Seq::empty(),
                        cursor: LaneCursorView {
                            positions: Seq::new(fleet.held().capacity as nat, |i: int| 0u64),
                            initial: 0,
                        },
                    })
                },
            },
    {
        let transport = match CacheTransport::<L>::new() {
            Ok(transport) => transport,
            Err(error) => {
                return Err(error);
            },
        };
        let cursor = transport.cursor_from_start(fleet);
        let cache = Cache { transport, stores: Vec::new(), cursor };
        assert(cache@.stores =~= Seq::<StoreItem>::empty());
        Ok(cache)
    }

    fn find(&self, name: &[u8]) -> (place: Option<usize>)
        requires
            stores_wf(self@.stores),
        ensures
            match place {
                Some(place) => {
                    &&& place < self@.stores.len()
                    &&& self@.stores[place as int].0 == name@
                    &&& has_store(self@.stores, name@)
                    &&& store_place(self@.stores, name@) == place
                },
                None => !has_store(self@.stores, name@),
            },
    {
        let mut index: usize = 0;
        while index < self.stores.len()
            invariant
                index <= self.stores@.len(),
                self@.stores.len() == self.stores@.len(),
                stores_wf(self@.stores),
                forall|i: int| 0 <= i < index ==> (#[trigger] self@.stores[i]).0 != name@,
            decreases self.stores@.len() - index,
        {
            assert(self@.stores[index as int] == self.stores@[index as int].item());
            if same_bytes(self.stores[index].name.as_slice(), name) {
                proof {
                    lemma_store_place(self@.stores, name@, index as int);
                }
                return Some(index);
            }
            index = index + 1;
        }
        None
    }

    /// Opens a store on this connection. A name that is open already gives
    /// another handle on the same store, whose room is unchanged.
    pub fn open_store(&mut self, name: &[u8], capacity: usize) -> (store: Result<Store<L>, Error>)
        requires
            old(self).wf(),
            0 < capacity <= isize::MAX / 64,
        ensures
            final(self).wf(),
            match store_fault::<L>(name@.len()) {
                Some(error) => store == Err::<Store<L>, Error>(error) && final(self)@ == old(self)@,
                None => {
                    &&& store is Ok
                    &&& store->Ok_0.label() == name@
                    &&& store->Ok_0.belongs(final(self)@)
                    &&& final(self)@ == (CacheView {
                        stores: if has_store(old(self)@.stores, name@) {
                            old(self)@.stores
                        } else {
                            old(self)@.stores.push(
                                (
                                    name@,
                                    LocalView {
                                        items: Seq::empty(),
                                        limit: capacity as nat,
                                        floor: None,
                                        coherent: true,
                                    },
                                ),
                            )
                        },
                        ..old(self)@
                    })
                },
            },
    {
        match self.transport.validate_store(name) {
            Ok(_) => {},
            Err(error) => {
                return Err(error);
            },
        }
        let ghost before = self@.stores;
        let place: usize = match self.find(name) {
            Some(place) => place,
            None => {
                let place: usize = self.stores.len();
                let store = NamedStore { name: to_vec(name), local: LocalCache::new(capacity) };
                let ghost item = store.item();
                self.stores.push(store);
                assert(self@.stores =~= before.push(item));
                place
            },
        };
        Ok(Store { place, name: octets::copy_of(name), layout: PhantomData })
    }

    /// Opens the store named `default`.
    pub fn open_default_store(&mut self) -> (store: Result<Store<L>, Error>)
        requires
            old(self).wf(),
        ensures
            final(self).wf(),
            match store_fault::<L>(7) {
                Some(error) => store == Err::<Store<L>, Error>(error) && final(self)@ == old(self)@,
                None => {
                    &&& store is Ok
                    &&& store->Ok_0.label() == default_name()
                    &&& store->Ok_0.belongs(final(self)@)
                    &&& final(self)@ == (CacheView {
                        stores: if has_store(old(self)@.stores, default_name()) {
                            old(self)@.stores
                        } else {
                            old(self)@.stores.push(
                                (
                                    default_name(),
                                    LocalView {
                                        items: Seq::empty(),
                                        limit: DEFAULT_L1_CAPACITY as nat,
                                        floor: None,
                                        coherent: true,
                                    },
                                ),
                            )
                        },
                        ..old(self)@
                    })
                },
            },
    {
        let mut name: Vec<u8> = Vec::new();
        name.push(0x64);
        name.push(0x65);
        name.push(0x66);
        name.push(0x61);
        name.push(0x75);
        name.push(0x6c);
        name.push(0x74);
        assert(name@ =~= default_name());
        self.open_store(name.as_slice(), DEFAULT_L1_CAPACITY)
    }

    fn lose_all(&mut self)
        requires
            old(self).wf(),
        ensures
            final(self).wf(),
            final(self)@ == (CacheView {
                stores: before_dispatch(old(self)@.stores, true),
                ..old(self)@
            }),
    {
        let ghost before = self@.stores;
        let mut index: usize = 0;
        while index < self.stores.len()
            invariant
                index <= self.stores@.len(),
                self.stores@.len() == before.len(),
                self.transport.wf(),
                self.cursor@ == old(self)@.cursor,
                stores_wf(before),
                forall|i: int|
                    0 <= i < index ==> (#[trigger] self.stores@[i]).item() == (
                        before[i].0,
                        before[i].1.lost(),
                    ) && before[i].1.lost().wf(),
                forall|i: int|
                    index <= i < before.len() ==> (#[trigger] self.stores@[i]).item() == before[i],
            decreases self.stores@.len() - index,
        {
            assert(before[index as int].1.wf());
            let store: &mut NamedStore = &mut self.stores[index];
            store.local.require_resync();
            index = index + 1;
        }
        proof {
            assert(self@.stores =~= before_dispatch(before, true));
            assert forall|i: int| 0 <= i < self@.stores.len() implies (
            #[trigger] self@.stores[i]).1.wf() by {
                assert(self@.stores[i] == self.stores@[i].item());
            }
            assert forall|i: int, j: int|
                0 <= i < self@.stores.len() && 0 <= j < self@.stores.len() && i != j implies (
            #[trigger] self@.stores[i]).0 != (#[trigger] self@.stores[j]).0 by {
                assert(before[i].0 != before[j].0);
            }
        }
    }

    /// Clears both rings and starts every store of the connection again.
    pub fn reset_transport<F: FleetRings>(&mut self, fleet: &mut F)
        requires
            old(self).wf(),
            old(fleet).sound(),
            ready::<L>(old(fleet).held()),
        ensures
            final(self).wf(),
            final(fleet).sound(),
            ready::<L>(final(fleet).held()),
            final(fleet).held() == emptied::<L>(old(fleet).held()),
            final(self)@ == (CacheView {
                stores: old(self)@.stores.map_values(
                    |item: StoreItem|
                        (
                            item.0,
                            LocalView {
                                items: Seq::empty(),
                                limit: item.1.limit,
                                floor: None,
                                coherent: true,
                            },
                        ),
                ),
                cursor: LaneCursorView {
                    positions: lane_heads(emptied::<L>(old(fleet).held()).ring::<MutationRecord<L>>()),
                    initial: 0,
                },
            }),
    {
        self.transport.reset_rings(fleet);
        self.cursor = self.transport.cursor_at_head(fleet);
        let ghost before = self@.stores;
        let mut index: usize = 0;
        while index < self.stores.len()
            invariant
                index <= self.stores@.len(),
                self.stores@.len() == before.len(),
                self.transport.wf(),
                self.cursor@ == (LaneCursorView {
                    positions: lane_heads(emptied::<L>(old(fleet).held()).ring::<MutationRecord<L>>()),
                    initial: 0,
                }),
                stores_wf(before),
                forall|i: int|
                    0 <= i < index ==> (#[trigger] self.stores@[i]).item() == (
                        before[i].0,
                        LocalView {
                            items: Seq::empty(),
                            limit: before[i].1.limit,
                            floor: None,
                            coherent: true,
                        },
                    ) && self.stores@[i].local@.wf(),
                forall|i: int|
                    index <= i < before.len() ==> (#[trigger] self.stores@[i]).item() == before[i],
            decreases self.stores@.len() - index,
        {
            assert(before[index as int].1.wf());
            let store: &mut NamedStore = &mut self.stores[index];
            store.local.reset_after_transport_reset();
            index = index + 1;
        }
        proof {
            let after = old(self)@.stores.map_values(
                |item: StoreItem|
                    (
                        item.0,
                        LocalView {
                            items: Seq::empty(),
                            limit: item.1.limit,
                            floor: None,
                            coherent: true,
                        },
                    ),
            );
            assert(self@.stores =~= after);
            assert forall|i: int| 0 <= i < self@.stores.len() implies (
            #[trigger] self@.stores[i]).1.wf() by {
                assert(self@.stores[i] == self.stores@[i].item());
            }
            assert forall|i: int, j: int|
                0 <= i < self@.stores.len() && 0 <= j < self@.stores.len() && i != j implies (
            #[trigger] self@.stores[i]).0 != (#[trigger] self@.stores[j]).0 by {
                assert(before[i].0 != before[j].0);
            }
        }
    }

    /// Discards uncertain local state and resumes behind the current mutations.
    /// To be called only where misses can be served from a backing store.
    pub fn recover_from_backing<F: FleetRings>(&mut self, fleet: &F)
        requires
            old(self).wf(),
            fleet.sound(),
            ready::<L>(fleet.held()),
        ensures
            final(self).wf(),
            final(self)@ == (CacheView {
                stores: old(self)@.stores.map_values(
                    |item: StoreItem|
                        (
                            item.0,
                            LocalView {
                                items: Seq::empty(),
                                limit: item.1.limit,
                                floor: Some(
                                    item.1.raised_floor(
                                        fleet.held().ring::<MutationRecord<L>>().version,
                                    ),
                                ),
                                coherent: true,
                            },
                        ),
                ),
                cursor: LaneCursorView {
                    positions: lane_heads(fleet.held().ring::<MutationRecord<L>>()),
                    initial: 0,
                },
            }),
    {
        self.cursor = self.transport.cursor_at_head(fleet);
        let floor: u64 = self.transport.current_revision_sequence(fleet);
        let ghost before = self@.stores;
        let mut index: usize = 0;
        while index < self.stores.len()
            invariant
                index <= self.stores@.len(),
                self.stores@.len() == before.len(),
                self.transport.wf(),
                floor == fleet.held().ring::<MutationRecord<L>>().version,
                self.cursor@ == (LaneCursorView {
                    positions: lane_heads(fleet.held().ring::<MutationRecord<L>>()),
                    initial: 0,
                }),
                stores_wf(before),
                forall|i: int|
                    0 <= i < index ==> (#[trigger] self.stores@[i]).item() == (
                        before[i].0,
                        LocalView {
                            items: Seq::empty(),
                            limit: before[i].1.limit,
                            floor: Some(before[i].1.raised_floor(floor)),
                            coherent: true,
                        },
                    ) && self.stores@[i].local@.wf(),
                forall|i: int|
                    index <= i < before.len() ==> (#[trigger] self.stores@[i]).item() == before[i],
            decreases self.stores@.len() - index,
        {
            assert(before[index as int].1.wf());
            let store: &mut NamedStore = &mut self.stores[index];
            store.local.recover_from_backing(floor);
            index = index + 1;
        }
        proof {
            let after = old(self)@.stores.map_values(
                |item: StoreItem|
                    (
                        item.0,
                        LocalView {
                            items: Seq::empty(),
                            limit: item.1.limit,
                            floor: Some(
                                item.1.raised_floor(fleet.held().ring::<MutationRecord<L>>().version),
                            ),
                            coherent: true,
                        },
                    ),
            );
            assert(self@.stores =~= after);
            assert forall|i: int| 0 <= i < self@.stores.len() implies (
            #[trigger] self@.stores[i]).1.wf() by {
                assert(self@.stores[i] == self.stores@[i].item());
            }
            assert forall|i: int, j: int|
                0 <= i < self@.stores.len() && 0 <= j < self@.stores.len() && i != j implies (
            #[trigger] self@.stores[i]).0 != (#[trigger] self@.stores[j]).0 by {
                assert(before[i].0 != before[j].0);
            }
        }
    }

    fn any_incoherent(&self) -> (any: bool)
        ensures
            any == (exists|i: int|
                0 <= i < self@.stores.len() && !(#[trigger] self@.stores[i]).1.coherent),
    {
        let mut index: usize = 0;
        while index < self.stores.len()
            invariant
                index <= self.stores@.len(),
                self@.stores.len() == self.stores@.len(),
                forall|i: int| 0 <= i < index ==> (#[trigger] self@.stores[i]).1.coherent,
            decreases self.stores@.len() - index,
        {
            assert(self@.stores[index as int] == self.stores@[index as int].item());
            if !self.stores[index].local.is_coherent() {
                return true;
            }
            index = index + 1;
        }
        false
    }

    fn dispatch<F: FleetRings>(
        &mut self,
        fleet: &F,
        mutation: CacheMutation,
        result: &mut CachePoll,
    )
        requires
            old(self).wf(),
            fleet.sound(),
            old(result).applied + old(result).ignored < usize::MAX,
        ensures
            final(self).wf(),
            final(self)@.cursor == old(self)@.cursor,
            progress(final(self)@.stores, *final(result)) == progress(
                old(self)@.stores,
                *old(result),
            ).step::<L>(fleet.held(), mutation@),
            final(result).observed == old(result).observed,
            final(result).loss == old(result).loss,
            final(result).malformed == old(result).malformed,
            final(result).applied + final(result).ignored <= old(result).applied + old(
                result,
            ).ignored + 1,
    {
        let ghost before = progress(self@.stores, *result);
        let ghost view = mutation@;
        let store = octets::duplicate(mutation.store());
        let place: usize = match self.find(octets::as_slice(&store)) {
            Some(place) => place,
            None => {
                result.ignored = result.ignored + 1;
                if !contains_name(&result.unknown_stores, &store) {
                    let ghost names = result.unknown_stores@;
                    result.unknown_stores.push(store);
                    assert(octets::all_octets(result.unknown_stores@) =~= octets::all_octets(
                        names,
                    ).push(octets(store)));
                }
                assert(progress(self@.stores, *result) =~= before.step::<L>(fleet.held(), view));
                return;
            },
        };
        let resolved: Option<Bytes> = match &mutation {
            CacheMutation::Put { payload, .. } => self.transport.read_payload(fleet, *payload),
            _ => None,
        };
        let ghost stores = self@.stores;
        let ghost value = value_of::<L>(fleet.held(), view);
        assert(stores[place as int] == self.stores@[place as int].item());
        let named: &mut NamedStore = &mut self.stores[place];
        let outcome = named.local.apply(mutation, resolved);
        proof {
            let local = stores[place as int].1.apply(view, value);
            assert(self@.stores =~= stores.update(place as int, (octets(store), local)));
            assert forall|i: int| 0 <= i < self@.stores.len() implies (
            #[trigger] self@.stores[i]).1.wf() by {
                if i != place {
                    assert(self@.stores[i] == stores[i]);
                }
            }
            assert forall|i: int, j: int|
                0 <= i < self@.stores.len() && 0 <= j < self@.stores.len() && i != j implies (
            #[trigger] self@.stores[i]).0 != (#[trigger] self@.stores[j]).0 by {
                assert(stores[i].0 != stores[j].0);
            }
        }
        match outcome {
            ApplyOutcome::Applied => {
                result.applied = result.applied + 1;
            },
            ApplyOutcome::Ignored => {
                result.ignored = result.ignored + 1;
            },
            ApplyOutcome::PayloadUnavailable { key } => {
                let ghost list = result.payload_unavailable@;
                let address = CacheAddress { store, key };
                let ghost said = address@;
                result.payload_unavailable.push(address);
                assert(addresses(result.payload_unavailable@) =~= addresses(list).push(said));
            },
        }
        assert(progress(self@.stores, *result) =~= before.step::<L>(fleet.held(), view));
    }

    /// Reads every visible mutation and dispatches it to the addressed store.
    pub fn poll<F: FleetRings>(&mut self, fleet: &F) -> (poll: CachePoll)
        requires
            old(self).wf(),
            fleet.sound(),
            ready::<L>(fleet.held()),
            old(self)@.cursor.fits(fleet.held().capacity),
        ensures
            final(self).wf(),
            final(self)@.cursor == (LaneCursorView {
                positions: lane_heads(fleet.held().ring::<MutationRecord<L>>()),
                initial: old(self)@.cursor.initial,
            }),
            final(self)@.cursor.fits(fleet.held().capacity),
            is_cache_poll::<L>(old(self)@, fleet.held(), final(self)@.stores, poll),
    {
        let raw = self.transport.poll(fleet, &mut self.cursor);
        let ghost seen = raw;
        let ghost mutations = mutation_views(raw.mutations@);
        let observed: usize = raw.mutations.len();
        let lost: bool = raw.requires_full_resync();
        assert(self@.stores == old(self)@.stores);
        if lost {
            self.lose_all();
        }
        let mut result = CachePoll {
            observed,
            applied: 0,
            ignored: 0,
            payload_unavailable: Vec::new(),
            unknown_stores: Vec::new(),
            loss: raw.loss,
            malformed: raw.malformed,
            resync_required: false,
        };
        let ghost start = progress(self@.stores, result);
        proof {
            assert(addresses(result.payload_unavailable@) =~= Seq::<(Seq<u8>, Seq<u8>)>::empty());
            assert(octets::all_octets(result.unknown_stores@) =~= Seq::<Seq<u8>>::empty());
            assert(start =~= (DispatchView {
                stores: before_dispatch(old(self)@.stores, lost),
                applied: 0,
                ignored: 0,
                unavailable: Seq::empty(),
                unknown: Seq::empty(),
            }));
        }
        let ghost cursor = self@.cursor;
        let mut rest: Vec<CacheMutation> = raw.mutations;
        let mut done: usize = 0;
        assert(mutations.subrange(0, 0) =~= Seq::<MutationView>::empty());
        assert(mutations.subrange(0, observed as int) =~= mutations);
        while done < observed
            invariant
                done <= observed,
                observed == mutations.len(),
                self.wf(),
                fleet.sound(),
                self@.cursor == cursor,
                mutation_views(rest@) == mutations.subrange(done as int, observed as int),
                progress(self@.stores, result) == start.run::<L>(
                    fleet.held(),
                    mutations.subrange(0, done as int),
                ),
                result.applied + result.ignored <= done,
                result.observed == observed,
                result.loss == seen.loss,
                result.malformed == seen.malformed,
            decreases observed - done,
        {
            let ghost before = rest@;
            assert(rest@.len() == mutation_views(rest@).len());
            let mutation = rest.remove(0);
            proof {
                assert(mutation@ == mutation_views(before)[0]);
                assert(mutation@ == mutations[done as int]);
                assert(mutation_views(rest@) =~= mutations.subrange(done + 1, observed as int)) by {
                    assert forall|i: int| 0 <= i < rest@.len() implies #[trigger] mutation_views(
                        rest@,
                    )[i] == mutations[done + 1 + i] by {
                        assert(rest@[i] == before[i + 1]);
                        assert(mutation_views(before)[i + 1] == mutations[done + 1 + i]);
                    }
                }
                let prefix = mutations.subrange(0, done + 1);
                assert(prefix.drop_last() =~= mutations.subrange(0, done as int));
                assert(prefix.last() == mutation@);
            }
            self.dispatch(fleet, mutation, &mut result);
            done = done + 1;
        }
        assert(mutations.subrange(0, observed as int) =~= mutations);
        result.resync_required = self.any_incoherent();
        result
    }

    /// The connection's transport.
    pub fn transport(&self) -> (transport: &CacheTransport<L>)
        requires
            self.wf(),
        ensures
            transport.wf(),
    {
        &self.transport
    }
}

/// The connection with another state of one store.
pub open spec fn with_local(cache: CacheView, place: int, local: LocalView) -> CacheView {
    CacheView { stores: cache.stores.update(place, (cache.stores[place].0, local)), ..cache }
}

impl<L: CacheLayout> Cache<L> {
    proof fn lemma_one_store_changed(
        before: CacheView,
        after: CacheView,
        place: int,
        local: LocalView,
    )
        requires
            stores_wf(before.stores),
            0 <= place < before.stores.len(),
            after == with_local(before, place, local),
            local.wf(),
        ensures
            stores_wf(after.stores),
    {
        assert forall|i: int| 0 <= i < after.stores.len() implies (
        #[trigger] after.stores[i]).1.wf() by {
            if i != place {
                assert(after.stores[i] == before.stores[i]);
            }
        }
        assert forall|i: int, j: int|
            0 <= i < after.stores.len() && 0 <= j < after.stores.len() && i != j implies (
        #[trigger] after.stores[i]).0 != (#[trigger] after.stores[j]).0 by {
            assert(before.stores[i].0 != before.stores[j].0);
        }
    }
}

impl<L: CacheLayout> Store<L> {
    /// The store's name.
    pub fn name(&self) -> (name: &Bytes)
        ensures
            octets(*name) == self.label(),
    {
        &self.name
    }

    /// Reads a key at a given time.
    pub fn read_at(&self, cache: &mut Cache<L>, key: &[u8], now_ms: u64) -> (read: CacheRead)
        requires
            old(cache).wf(),
            self.belongs(old(cache)@),
        ensures
            final(cache).wf(),
            self.belongs(final(cache)@),
            ({
                let local = old(cache)@.stores[self.index()].1;
                &&& read@ == local.read(key@, now_ms)
                &&& final(cache)@ == with_local(old(cache)@, self.index(), local.touched(key@))
            }),
    {
        let ghost before = cache@;
        let ghost place = self.place as int;
        assert(before.stores[place] == cache.stores@[place].item());
        assert(before.stores[place].1.wf());
        let named: &mut NamedStore = &mut cache.stores[self.place];
        let read = named.local.read_at(key, now_ms);
        proof {
            let local = before.stores[place].1.touched(key@);
            assert(cache@.stores =~= with_local(before, place, local).stores);
            Cache::<L>::lemma_one_store_changed(before, cache@, place, local);
        }
        read
    }

    /// Checks a key and a value.
    pub fn validate_put(&self, cache: &Cache<L>, key: &[u8], value: &[u8]) -> (valid: Result<
        (),
        Error,
    >)
        ensures
            match put_fault::<L>(self.label().len(), key@.len(), value@.len()) {
                Some(error) => valid == Err::<(), Error>(error),
                None => valid is Ok,
            },
    {
        cache.transport.validate_put(octets::as_slice(&self.name), key, value)
    }

    /// Checks a key.
    pub fn validate_key(&self, cache: &Cache<L>, key: &[u8]) -> (valid: Result<(), Error>)
        ensures
            match key_fault::<L>(self.label().len(), key@.len()) {
                Some(error) => valid == Err::<(), Error>(error),
                None => valid is Ok,
            },
    {
        cache.transport.validate_key(octets::as_slice(&self.name), key)
    }

    /// Publishes a value for a key and installs it locally.
    pub fn put<F: FleetRings>(
        &self,
        cache: &mut Cache<L>,
        fleet: &mut F,
        key: &[u8],
        value: &[u8],
        ttl_millis: Option<u128>,
        now_ms: u64,
    ) -> (revision: Result<CacheRevision, Error>)
        requires
            old(cache).wf(),
            self.belongs(old(cache)@),
            old(fleet).sound(),
            ready::<L>(old(fleet).held()),
            old(fleet).held().ring::<MutationRecord<L>>().version < u64::MAX,
            old(fleet).held().ring::<PayloadRecord<L>>().version < u64::MAX,
        ensures
            final(cache).wf(),
            self.belongs(final(cache)@),
            final(fleet).sound(),
            ready::<L>(final(fleet).held()),
            match put_fault::<L>(self.label().len(), key@.len(), value@.len()) {
                Some(error) => {
                    &&& revision == Err::<CacheRevision, Error>(error)
                    &&& final(cache)@ == old(cache)@
                    &&& final(fleet).held() == old(fleet).held()
                },
                None => {
                    let before = old(fleet).held();
                    let local = old(cache)@.stores[self.index()].1;
                    let payload = next_payload::<L>(before, value@);
                    let expires_at_ms = deadline(now_ms, ttl_millis);
                    let minted = next_revision::<L>(stored::<L>(before, value@));
                    &&& revision == Ok::<CacheRevision, Error>(minted)
                    &&& final(fleet).held() == recorded::<L>(
                        stored::<L>(before, value@),
                        FRAME_KIND_PUT,
                        mutation_record(self.label(), key@, deadline_field(expires_at_ms), payload),
                    )
                    &&& final(cache)@ == with_local(
                        old(cache)@,
                        self.index(),
                        if local.accepts(minted) {
                            local.put(
                                key@,
                                SlotView::Present(
                                    EntryView { value: value@, revision: minted, expires_at_ms },
                                ),
                            )
                        } else {
                            local
                        },
                    )
                },
            },
    {
        let ghost before = cache@;
        let ghost place = self.place as int;
        let published = cache.transport.publish_put(
            fleet,
            octets::as_slice(&self.name),
            key,
            value,
            ttl_millis,
            now_ms,
        );
        match published {
            Err(error) => Err(error),
            Ok(mutation) => {
                let revision = mutation.revision();
                let expires_at_ms: Option<u64> = match mutation {
                    CacheMutation::Put { expires_at_ms, .. } => expires_at_ms,
                    _ => None,
                };
                assert(before.stores[place] == cache.stores@[place].item());
                assert(before.stores[place].1.wf());
                let named: &mut NamedStore = &mut cache.stores[self.place];
                named.local.install_local(key, octets::copy_of(value), revision, expires_at_ms);
                proof {
                    let local = cache.stores@[place].local@;
                    assert(cache@.stores =~= with_local(before, place, local).stores);
                    Cache::<L>::lemma_one_store_changed(before, cache@, place, local);
                }
                Ok(revision)
            },
        }
    }

    /// Publishes the deletion of a key and takes it away locally.
    pub fn delete<F: FleetRings>(
        &self,
        cache: &mut Cache<L>,
        fleet: &mut F,
        key: &[u8],
    ) -> (revision: Result<CacheRevision, Error>)
        requires
            old(cache).wf(),
            self.belongs(old(cache)@),
            old(fleet).sound(),
            ready::<L>(old(fleet).held()),
            old(fleet).held().ring::<MutationRecord<L>>().version < u64::MAX,
        ensures
            final(cache).wf(),
            self.belongs(final(cache)@),
            final(fleet).sound(),
            ready::<L>(final(fleet).held()),
            match key_fault::<L>(self.label().len(), key@.len()) {
                Some(error) => {
                    &&& revision == Err::<CacheRevision, Error>(error)
                    &&& final(cache)@ == old(cache)@
                    &&& final(fleet).held() == old(fleet).held()
                },
                None => {
                    let local = old(cache)@.stores[self.index()].1;
                    let minted = next_revision::<L>(old(fleet).held());
                    &&& revision == Ok::<CacheRevision, Error>(minted)
                    &&& final(fleet).held() == recorded::<L>(
                        old(fleet).held(),
                        FRAME_KIND_DELETE,
                        mutation_record(self.label(), key@, 0, no_payload()),
                    )
                    &&& final(cache)@ == with_local(
                        old(cache)@,
                        self.index(),
                        if local.accepts(minted) {
                            local.put(key@, SlotView::Missing { revision: minted })
                        } else {
                            local
                        },
                    )
                },
            },
    {
        let ghost before = cache@;
        let ghost place = self.place as int;
        match cache.transport.publish_delete(fleet, octets::as_slice(&self.name), key) {
            Err(error) => Err(error),
            Ok(mutation) => {
                let revision = mutation.revision();
                assert(before.stores[place] == cache.stores@[place].item());
                assert(before.stores[place].1.wf());
                let named: &mut NamedStore = &mut cache.stores[self.place];
                named.local.install_missing(key, revision);
                proof {
                    let local = cache.stores@[place].local@;
                    assert(cache@.stores =~= with_local(before, place, local).stores);
                    Cache::<L>::lemma_one_store_changed(before, cache@, place, local);
                }
                Ok(revision)
            },
        }
    }

    /// Publishes the reset of this store alone and clears it locally.
    pub fn reset<F: FleetRings>(&self, cache: &mut Cache<L>, fleet: &mut F) -> (revision: Result<
        CacheRevision,
        Error,
    >)
        requires
            old(cache).wf(),
            self.belongs(old(cache)@),
            old(fleet).sound(),
            ready::<L>(old(fleet).held()),
            old(fleet).held().ring::<MutationRecord<L>>().version < u64::MAX,
        ensures
            final(cache).wf(),
            self.belongs(final(cache)@),
            final(fleet).sound(),
            ready::<L>(final(fleet).held()),
            match store_fault::<L>(self.label().len()) {
                Some(error) => {
                    &&& revision == Err::<CacheRevision, Error>(error)
                    &&& final(cache)@ == old(cache)@
                    &&& final(fleet).held() == old(fleet).held()
                },
                None => {
                    let local = old(cache)@.stores[self.index()].1;
                    let minted = next_revision::<L>(old(fleet).held());
                    &&& revision == Ok::<CacheRevision, Error>(minted)
                    &&& final(fleet).held() == recorded::<L>(
                        old(fleet).held(),
                        FRAME_KIND_RESET,
                        mutation_record(self.label(), Seq::empty(), 0, no_payload()),
                    )
                    &&& final(cache)@ == with_local(
                        old(cache)@,
                        self.index(),
                        if local.accepts(minted) {
                            local.raise(minted.sequence)
                        } else {
                            local
                        },
                    )
                },
            },
    {
        let ghost before = cache@;
        let ghost place = self.place as int;
        match cache.transport.publish_reset(fleet, octets::as_slice(&self.name)) {
            Err(error) => Err(error),
            Ok(mutation) => {
                let revision = mutation.revision();
                assert(before.stores[place] == cache.stores@[place].item());
                assert(before.stores[place].1.wf());
                let named: &mut NamedStore = &mut cache.stores[self.place];
                named.local.reset_local(revision);
                proof {
                    let local = cache.stores@[place].local@;
                    assert(cache@.stores =~= with_local(before, place, local).stores);
                    Cache::<L>::lemma_one_store_changed(before, cache@, place, local);
                }
                Ok(revision)
            },
        }
    }

    /// The store's local part.
    pub fn local<'a>(&self, cache: &'a Cache<L>) -> (local: &'a LocalCache)
        requires
            self.belongs(cache@),
        ensures
            local@ == cache@.stores[self.index()].1,
    {
        assert(cache@.stores[self.place as int] == cache.stores@[self.place as int].item());
        &cache.stores[self.place].local
    }
}

/// The name of the default store: `default`.
pub open spec fn default_name() -> Seq<u8> {
    seq![0x64u8, 0x65u8, 0x66u8, 0x61u8, 0x75u8, 0x6cu8, 0x74u8]
}

/// Where a dispatch stands, of which these are the stores and the result.
pub open spec fn progress(stores: Seq<StoreItem>, result: CachePoll) -> DispatchView {
    DispatchView {
        stores,
        applied: result.applied as nat,
        ignored: result.ignored as nat,
        unavailable: addresses(result.payload_unavailable@),
        unknown: octets::all_octets(result.unknown_stores@),
    }
}

} // verus!
