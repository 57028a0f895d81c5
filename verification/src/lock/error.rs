//! Errors of the lock.
use vstd::prelude::*;
use vstd::string::*;

use crate::decimal::{digits, push_number};

verus! {

/// Why a lock operation was refused.
#[derive(Clone, Copy, Debug, PartialEq, Eq)]
pub enum Error {
    InvalidLayout(&'static str),
    NamespaceEmpty,
    KeyEmpty,
    OwnerEmpty,
    EntryTooLarge { namespace_len: usize, key_len: usize, owner_len: usize, max_payload: usize },
    StateFull { capacity: usize },
    IdExhausted,
    TtlZero,
    TtlOverflow,
}

impl Error {
    /// The error, in words.
    pub open spec fn text(self) -> Seq<char> {
        match self {
            Error::InvalidLayout(message) => "invalid lock layout: "@ + message@,
            Error::NamespaceEmpty => "lock namespace must not be empty"@,
            Error::KeyEmpty => "lock key must not be empty"@,
            Error::OwnerEmpty => "lock owner must not be empty"@,
            Error::EntryTooLarge { namespace_len, key_len, owner_len, max_payload } => "lock entry is too large: namespace_len="@
                + digits(namespace_len as nat) + " key_len="@ + digits(key_len as nat)
                + " owner_len="@ + digits(owner_len as nat) + " max_payload="@
                + digits(max_payload as nat),
            Error::StateFull { capacity } => "lock state table is full: capacity="@
                + digits(capacity as nat),
            Error::IdExhausted => "lock id counter is exhausted"@,
            Error::TtlZero => "lock TTL must be greater than zero"@,
            Error::TtlOverflow => "lock TTL deadline overflowed"@,
        }
    }

    /// The error, in words.
    pub fn to_string(&self) -> (text: String)
        ensures
            text@ == self.text(),
    {
        match self {
            Error::InvalidLayout(message) => {
                let mut text: String = "invalid lock layout: ".to_owned();
                text.append(message);
                text
            },
            Error::NamespaceEmpty => "lock namespace must not be empty".to_owned(),
            Error::KeyEmpty => "lock key must not be empty".to_owned(),
            Error::OwnerEmpty => "lock owner must not be empty".to_owned(),
            Error::EntryTooLarge { namespace_len, key_len, owner_len, max_payload } => {
                let mut text: String = "lock entry is too large: namespace_len=".to_owned();
                push_number(&mut text, *namespace_len as u64);
                text.append(" key_len=");
                push_number(&mut text, *key_len as u64);
                text.append(" owner_len=");
                push_number(&mut text, *owner_len as u64);
                text.append(" max_payload=");
                push_number(&mut text, *max_payload as u64);
                text
            },
            Error::StateFull { capacity } => {
                let mut text: String = "lock state table is full: capacity=".to_owned();
                push_number(&mut text, *capacity as u64);
                text
            },
            Error::IdExhausted => "lock id counter is exhausted".to_owned(),
            Error::TtlZero => "lock TTL must be greater than zero".to_owned(),
            Error::TtlOverflow => "lock TTL deadline overflowed".to_owned(),
        }
    }
}

} // verus!
