//! Keys, owners, leases and transitions.
use bytes::Bytes;
use vstd::prelude::*;
use vstd::string::*;

use crate::codec::same_bytes;
use crate::id::{counter_of, NetId64};
use crate::lock::fence::FenceToken;
use crate::lock::state::LOCK_STATE_PAYLOAD_MAX;
use crate::octets;
use crate::octets::octets;

verus! {

/// Typed namespace of lock keys.
pub trait LockType {
    const NAMESPACE: &'static str;
}

/// Resource identity used for contention.
#[derive(Debug, PartialEq, Eq, Hash)]
pub struct LockKey {
    namespace: Bytes,
    label: Bytes,
}

/// What a key says: its namespace and its label.
pub struct KeyView {
    pub namespace: Seq<u8>,
    pub label: Seq<u8>,
}

impl View for LockKey {
    type V = KeyView;

    closed spec fn view(&self) -> KeyView {
        KeyView { namespace: octets(self.namespace), label: octets(self.label) }
    }
}

impl Clone for LockKey {
    fn clone(&self) -> (copy: LockKey)
        ensures
            copy@ == self@,
    {
        LockKey {
            namespace: octets::duplicate(&self.namespace),
            label: octets::duplicate(&self.label),
        }
    }
}

impl LockKey {
    /// A key in the namespace of `T`.
    pub fn new<T: LockType>(label: Bytes) -> (key: LockKey)
        ensures
            key@ == (KeyView { namespace: T::NAMESPACE.spec_bytes(), label: octets(label) }),
    {
        LockKey { namespace: octets::copy_of(T::NAMESPACE.as_bytes()), label }
    }

    /// A key in a namespace chosen at run time.
    pub fn from_parts(namespace: Bytes, label: Bytes) -> (key: LockKey)
        ensures
            key@ == (KeyView { namespace: octets(namespace), label: octets(label) }),
    {
        LockKey { namespace, label }
    }

    /// The namespace's bytes.
    pub fn namespace(&self) -> (namespace: &[u8])
        ensures
            namespace@ == self@.namespace,
    {
        octets::as_slice(&self.namespace)
    }

    /// The label's bytes.
    pub fn label(&self) -> (label: &[u8])
        ensures
            label@ == self@.label,
    {
        octets::as_slice(&self.label)
    }

    /// True when both keys name one resource.
    pub fn same(&self, other: &LockKey) -> (same: bool)
        ensures
            same == (self@ == other@),
    {
        same_bytes(self.namespace(), other.namespace()) && same_bytes(self.label(), other.label())
    }
}

/// Opaque identity of a lock's holder, chosen by the caller.
#[derive(Debug, PartialEq, Eq, Hash)]
pub struct LockOwner(Bytes);

impl View for LockOwner {
    type V = Seq<u8>;

    closed spec fn view(&self) -> Seq<u8> {
        octets(self.0)
    }
}

impl Clone for LockOwner {
    fn clone(&self) -> (copy: LockOwner)
        ensures
            copy@ == self@,
    {
        LockOwner(octets::duplicate(&self.0))
    }
}

impl LockOwner {
    /// The owner with this identity.
    pub fn new(value: Bytes) -> (owner: LockOwner)
        ensures
            owner@ == octets(value),
    {
        LockOwner(value)
    }

    /// The owner whose identity is this text.
    pub fn from_text(value: &str) -> (owner: LockOwner)
        ensures
            owner@ == value.spec_bytes(),
    {
        LockOwner(octets::copy_of(value.as_bytes()))
    }

    /// The owner's identity.
    pub fn as_bytes(&self) -> (bytes: &[u8])
        ensures
            bytes@ == self@,
    {
        octets::as_slice(&self.0)
    }
}

/// One lock tenure.
#[derive(Debug, PartialEq, Eq)]
pub struct LockLease {
    pub lock_id: NetId64,
    pub key: LockKey,
    pub owner: LockOwner,
    /// When this tenure began.
    pub acquired_at_ms: u64,
    /// When this tenure ends.
    pub expires_at_ms: u64,
    pub state_revision: u64,
}

/// What a lease says.
pub struct LeaseView {
    pub lock_id: NetId64,
    pub key: KeyView,
    pub owner: Seq<u8>,
    pub acquired_at_ms: u64,
    pub expires_at_ms: u64,
    pub state_revision: u64,
}

impl View for LockLease {
    type V = LeaseView;

    open spec fn view(&self) -> LeaseView {
        LeaseView {
            lock_id: self.lock_id,
            key: self.key@,
            owner: self.owner@,
            acquired_at_ms: self.acquired_at_ms,
            expires_at_ms: self.expires_at_ms,
            state_revision: self.state_revision,
        }
    }
}

impl Clone for LockLease {
    fn clone(&self) -> (copy: LockLease)
        ensures
            copy@ == self@,
    {
        LockLease {
            lock_id: self.lock_id,
            key: self.key.clone(),
            owner: self.owner.clone(),
            acquired_at_ms: self.acquired_at_ms,
            expires_at_ms: self.expires_at_ms,
            state_revision: self.state_revision,
        }
    }
}

/// What an optional lease says.
pub open spec fn lease_view(lease: Option<LockLease>) -> Option<LeaseView> {
    match lease {
        Some(lease) => Some(lease@),
        None => None,
    }
}

impl LeaseView {
    /// The tenure's fencing token: larger for every later tenure.
    pub open spec fn token(self) -> u64 {
        counter_of(self.lock_id.0)
    }

    /// True when a slot has room for the tenure's key and owner.
    pub open spec fn fits(self) -> bool {
        self.key.namespace.len() + self.key.label.len() + self.owner.len()
            <= LOCK_STATE_PAYLOAD_MAX
    }

    /// True when the tenure is over.
    pub open spec fn expired(self, now_ms: u64) -> bool {
        self.expires_at_ms <= now_ms
    }
}

impl LockLease {
    /// The tenure's fencing token: larger for every later tenure.
    pub fn fencing_token(&self) -> (token: FenceToken)
        ensures
            token@ == self@.token(),
    {
        FenceToken::new(self.lock_id.counter())
    }

    /// True when the tenure is over.
    pub fn is_expired_at(&self, now_ms: u64) -> (expired: bool)
        ensures
            expired == self@.expired(now_ms),
    {
        self.expires_at_ms <= now_ms
    }
}

/// Result of one attempt to acquire a lock.
#[derive(Debug, PartialEq, Eq)]
pub enum LockAcquire {
    Acquired(LockLease),
    Occupied(LockLease),
}

/// What an attempt gave.
pub enum AcquireView {
    Acquired(LeaseView),
    Occupied(LeaseView),
}

impl View for LockAcquire {
    type V = AcquireView;

    open spec fn view(&self) -> AcquireView {
        match self {
            LockAcquire::Acquired(lease) => AcquireView::Acquired(lease@),
            LockAcquire::Occupied(lease) => AcquireView::Occupied(lease@),
        }
    }
}

impl LockAcquire {
    /// The lease, when the attempt won.
    pub fn acquired(self) -> (lease: Option<LockLease>)
        ensures
            lease_view(lease) == (match self@ {
                AcquireView::Acquired(lease) => Some(lease),
                AcquireView::Occupied(_) => None,
            }),
    {
        match self {
            LockAcquire::Acquired(lease) => Some(lease),
            LockAcquire::Occupied(_) => None,
        }
    }

    /// The lease of whoever holds the lock now.
    pub fn holder(&self) -> (lease: &LockLease)
        ensures
            lease@ == (match self@ {
                AcquireView::Acquired(lease) => lease,
                AcquireView::Occupied(lease) => lease,
            }),
    {
        match self {
            LockAcquire::Acquired(lease) => lease,
            LockAcquire::Occupied(lease) => lease,
        }
    }
}

/// One successful change of a lock's state.
#[derive(Debug, PartialEq, Eq)]
pub enum LockTransition {
    Acquired(LockLease),
    Renewed(LockLease),
    Released { lock_id: NetId64, key: LockKey, owner: LockOwner, state_revision: u64 },
}

/// What a transition says.
pub enum TransitionView {
    Acquired(LeaseView),
    Renewed(LeaseView),
    Released { lock_id: NetId64, key: KeyView, owner: Seq<u8>, state_revision: u64 },
}

impl View for LockTransition {
    type V = TransitionView;

    open spec fn view(&self) -> TransitionView {
        match self {
            LockTransition::Acquired(lease) => TransitionView::Acquired(lease@),
            LockTransition::Renewed(lease) => TransitionView::Renewed(lease@),
            LockTransition::Released { lock_id, key, owner, state_revision } =>
            TransitionView::Released {
                lock_id: *lock_id,
                key: key@,
                owner: owner@,
                state_revision: *state_revision,
            },
        }
    }
}

impl TransitionView {
    pub open spec fn lock_id(self) -> NetId64 {
        match self {
            TransitionView::Acquired(lease) => lease.lock_id,
            TransitionView::Renewed(lease) => lease.lock_id,
            TransitionView::Released { lock_id, .. } => lock_id,
        }
    }

    pub open spec fn key(self) -> KeyView {
        match self {
            TransitionView::Acquired(lease) => lease.key,
            TransitionView::Renewed(lease) => lease.key,
            TransitionView::Released { key, .. } => key,
        }
    }

    pub open spec fn owner(self) -> Seq<u8> {
        match self {
            TransitionView::Acquired(lease) => lease.owner,
            TransitionView::Renewed(lease) => lease.owner,
            TransitionView::Released { owner, .. } => owner,
        }
    }

    pub open spec fn state_revision(self) -> u64 {
        match self {
            TransitionView::Acquired(lease) => lease.state_revision,
            TransitionView::Renewed(lease) => lease.state_revision,
            TransitionView::Released { state_revision, .. } => state_revision,
        }
    }
}

impl LockTransition {
    /// The tenure that changed.
    pub fn lock_id(&self) -> (id: NetId64)
        ensures
            id == self@.lock_id(),
    {
        match self {
            LockTransition::Acquired(lease) => lease.lock_id,
            LockTransition::Renewed(lease) => lease.lock_id,
            LockTransition::Released { lock_id, .. } => *lock_id,
        }
    }

    /// The lock that changed.
    pub fn key(&self) -> (key: &LockKey)
        ensures
            key@ == self@.key(),
    {
        match self {
            LockTransition::Acquired(lease) => &lease.key,
            LockTransition::Renewed(lease) => &lease.key,
            LockTransition::Released { key, .. } => key,
        }
    }

    /// The tenure's owner.
    pub fn owner(&self) -> (owner: &LockOwner)
        ensures
            owner@ == self@.owner(),
    {
        match self {
            LockTransition::Acquired(lease) => &lease.owner,
            LockTransition::Renewed(lease) => &lease.owner,
            LockTransition::Released { owner, .. } => owner,
        }
    }

    /// The change's place in the order of all changes.
    pub fn state_revision(&self) -> (revision: u64)
        ensures
            revision == self@.state_revision(),
    {
        match self {
            LockTransition::Acquired(lease) => lease.state_revision,
            LockTransition::Renewed(lease) => lease.state_revision,
            LockTransition::Released { state_revision, .. } => *state_revision,
        }
    }
}

/// A transition decoded from the event ring.
#[derive(Debug, PartialEq, Eq)]
pub struct LockEvent {
    pub event_id: NetId64,
    pub transition: LockTransition,
}

/// What an event says.
pub struct EventView {
    pub event_id: NetId64,
    pub transition: TransitionView,
}

impl View for LockEvent {
    type V = EventView;

    open spec fn view(&self) -> EventView {
        EventView { event_id: self.event_id, transition: self.transition@ }
    }
}

} // verus!
