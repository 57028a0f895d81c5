//! What holds of the leases that a lock domain hands out over its whole life.
use vstd::prelude::*;

use crate::fleet::FleetView;
use crate::id::lemma_pack;
use crate::lock::error::Error;
use crate::lock::keys::{
    lease_view, AcquireView, KeyView, LeaseView, LockAcquire, LockLease, TransitionView,
};
use crate::lock::layout::LockLayout;
use crate::lock::protocol::event_fault;
use crate::lock::state::{entry_fault, TableView, LOCK_COUNTER_MAX};
use crate::lock::{announced, is_acquire, is_release, is_renewal, same_live};

verus! {

/// What was asked of a lock domain, and the answer.
pub enum Operation {
    Acquire {
        key: KeyView,
        owner: Seq<u8>,
        now_ms: u64,
        expires_at_ms: u64,
        result: Result<LockAcquire, Error>,
    },
    Renew {
        key: KeyView,
        entitled: bool,
        now_ms: u64,
        expires_at_ms: u64,
        result: Result<Option<LockLease>, Error>,
    },
    Release { key: KeyView, entitled: bool, now_ms: u64, result: Result<bool, Error> },
    /// A look at the current tenure of a key, which is told where `told` says so.
    Look { key: KeyView, now_ms: u64, told: bool },
    /// A request that is refused before it looks at the table.
    Refused,
}

/// One request, the table and the requesting member's fleet before and after it.
pub struct Call {
    pub table: TableView,
    pub after: TableView,
    pub fleet: FleetView,
    pub fleet_after: FleetView,
    pub operation: Operation,
}

impl Call {
    /// True when the request did what the domain's functions do.
    pub open spec fn done<L: LockLayout>(self) -> bool {
        match self.operation {
            Operation::Acquire { key, owner, now_ms, expires_at_ms, result } => is_acquire::<L>(
                self.table,
                self.after,
                self.fleet,
                self.fleet_after,
                key,
                owner,
                now_ms,
                expires_at_ms,
                result,
            ),
            Operation::Renew { key, entitled, now_ms, expires_at_ms, result } => {
                &&& entitled ==> self.table.live(key, now_ms) is Some
                &&& is_renewal::<L>(
                    self.table,
                    self.after,
                    self.fleet,
                    self.fleet_after,
                    key,
                    entitled,
                    now_ms,
                    expires_at_ms,
                    result,
                )
            },
            Operation::Release { key, entitled, now_ms, result } => is_release::<L>(
                self.table,
                self.after,
                self.fleet,
                self.fleet_after,
                key,
                entitled,
                now_ms,
                result,
            ),
            Operation::Look { key, now_ms, told } => {
                &&& same_live(self.table, self.after, now_ms)
                &&& self.after.next_lock == self.table.next_lock
            },
            Operation::Refused => self.after == self.table,
        }
    }

    /// The lease that the answer hands out.
    pub open spec fn handed(self) -> Option<LeaseView> {
        match self.operation {
            Operation::Acquire { result: Ok(acquire), .. } => match acquire@ {
                AcquireView::Acquired(lease) => Some(lease),
                AcquireView::Occupied(lease) => Some(lease),
            },
            Operation::Renew { result: Ok(lease), .. } => lease_view(lease),
            Operation::Look { key, now_ms, told } => if told {
                self.table.live(key, now_ms)
            } else {
                None
            },
            _ => None,
        }
    }

    /// The tenure that the request began.
    pub open spec fn begun(self) -> Option<LeaseView> {
        match self.operation {
            Operation::Acquire { result: Ok(acquire), .. } => match acquire@ {
                AcquireView::Acquired(lease) => Some(lease),
                AcquireView::Occupied(_) => None,
            },
            _ => None,
        }
    }
}

/// The requests to one domain since it was last reset, whichever members made
/// them: each finds the table that the one before it left.
pub open spec fn is_history<L: LockLayout>(calls: Seq<Call>) -> bool {
    &&& forall|i: int|
        0 <= i < calls.len() ==> {
            let call = #[trigger] calls[i];
            &&& call.done::<L>()
            &&& call.table.wf() && call.table.numbered()
            &&& call.after.wf() && call.after.numbered()
        }
    &&& forall|i: int| 0 < i < calls.len() ==> (#[trigger] calls[i]).table == calls[i - 1].after
}

/// Every lease that a request hands out has a token that was numbered by then. The
/// token of a new tenure was not numbered before. No request takes a number back.
pub proof fn law_handed_out_tokens_are_numbered<L: LockLayout>(call: Call)
    requires
        call.done::<L>(),
        call.table.wf(),
        call.table.numbered(),
    ensures
        call.table.next_lock <= call.after.next_lock,
        call.handed() matches Some(lease) ==> lease.token() <= call.after.next_lock,
        call.begun() matches Some(lease) ==> call.handed() == Some(lease) && call.table.next_lock
            < lease.token(),
{
    lemma_pack(L::STATE_KIND, call.fleet.node, (call.table.next_lock + 1) as u64);
    match call.operation {
        Operation::Acquire { key, now_ms, .. } => {
            lemma_live_is_numbered(call.table, key, now_ms);
        },
        Operation::Renew { key, now_ms, .. } => {
            lemma_live_is_numbered(call.table, key, now_ms);
        },
        Operation::Look { key, now_ms, .. } => {
            lemma_live_is_numbered(call.table, key, now_ms);
        },
        _ => {},
    }
}

proof fn lemma_live_is_numbered(table: TableView, key: KeyView, now_ms: u64)
    requires
        table.numbered(),
    ensures
        table.live(key, now_ms) matches Some(lease) ==> lease.token() <= table.next_lock,
{
}

proof fn lemma_numbers_grow<L: LockLayout>(calls: Seq<Call>, i: int, j: int)
    requires
        is_history::<L>(calls),
        0 <= i < j < calls.len(),
    ensures
        calls[i].after.next_lock <= calls[j].table.next_lock,
    decreases j - i,
{
    if i + 1 < j {
        lemma_numbers_grow::<L>(calls, i, j - 1);
        law_handed_out_tokens_are_numbered::<L>(calls[j - 1]);
    }
    assert(calls[j].table == calls[j - 1].after);
}

/// Fencing tokens grow over the whole life of a domain: the token of a new tenure
/// is larger than that of every lease that was handed out before, whatever became
/// of it.
pub proof fn law_tokens_grow_over_all_leases<L: LockLayout>(calls: Seq<Call>, i: int, j: int)
    requires
        is_history::<L>(calls),
        0 <= i < j < calls.len(),
        calls[i].handed() is Some,
        calls[j].begun() is Some,
    ensures
        calls[i].handed()->0.token() < calls[j].begun()->0.token(),
{
    law_handed_out_tokens_are_numbered::<L>(calls[i]);
    law_handed_out_tokens_are_numbered::<L>(calls[j]);
    lemma_numbers_grow::<L>(calls, i, j);
}

/// What an attempt on a lock gives. While a tenure of the key is not over, whoever
/// asks is told of it, nothing that is not over changes, and nothing is published.
/// Else the caller holds the key from then on, with a token above that of every
/// lease handed out before, and exactly this is published.
pub proof fn law_acquire<L: LockLayout>(calls: Seq<Call>, j: int)
    requires
        is_history::<L>(calls),
        0 <= j < calls.len(),
        calls[j].operation matches Operation::Acquire { key, owner, now_ms, .. } && entry_fault(
            key,
            owner,
        ) is None && event_fault::<L>(key, owner) is None && !calls[j].table.full(now_ms)
            && calls[j].table.next_lock < LOCK_COUNTER_MAX && calls[j].table.next_revision
            < u64::MAX,
    ensures
        ({
            let call = calls[j];
            let key = call.operation->Acquire_key;
            let owner = call.operation->Acquire_owner;
            let now_ms = call.operation->Acquire_now_ms;
            let result = call.operation->Acquire_result;
            &&& result is Ok
            &&& match call.table.live(key, now_ms) {
                Some(lease) => {
                    &&& result->Ok_0@ == AcquireView::Occupied(lease)
                    &&& same_live(call.table, call.after, now_ms)
                    &&& call.fleet_after == call.fleet
                },
                None => {
                    let lease = result->Ok_0@->Acquired_0;
                    &&& result->Ok_0@ is Acquired
                    &&& lease.key == key
                    &&& lease.owner == owner
                    &&& lease.expires_at_ms == call.operation->Acquire_expires_at_ms
                    &&& call.after.live(key, now_ms) == Some(lease)
                    &&& call.fleet_after == announced::<L>(
                        call.fleet,
                        TransitionView::Acquired(lease),
                    )
                    &&& forall|i: int|
                        0 <= i < j && (#[trigger] calls[i]).handed() is Some
                            ==> calls[i].handed()->0.token() < lease.token()
                },
            }
        }),
{
    assert(calls[j].done::<L>());
    if calls[j].begun() is Some {
        assert forall|i: int| 0 <= i < j && (#[trigger] calls[i]).handed() is Some implies
            calls[i].handed()->0.token() < calls[j].begun()->0.token() by {
            law_tokens_grow_over_all_leases::<L>(calls, i, j);
        }
    }
}

} // verus!
