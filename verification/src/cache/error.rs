//! Errors of the cache.
use vstd::prelude::*;
use vstd::string::*;

use crate::decimal::{digits, push_number};

verus! {

/// Why a cache operation was refused.
#[derive(Clone, Copy, Debug, PartialEq, Eq)]
pub enum Error {
    StoreEmpty,
    StoreTooLarge { store_len: usize, max: usize },
    KeyEmpty,
    KeyTooLarge { key_len: usize, max: usize },
    ValueTooLarge { value_len: usize, max: usize },
    InvalidLayout(&'static str),
}

impl Error {
    /// The error, in words.
    pub open spec fn text(self) -> Seq<char> {
        match self {
            Error::StoreEmpty => "cache store must not be empty"@,
            Error::StoreTooLarge { store_len, max } => "cache store is too large: "@
                + digits(store_len as nat) + " > "@ + digits(max as nat),
            Error::KeyEmpty => "cache key must not be empty"@,
            Error::KeyTooLarge { key_len, max } => "cache key is too large: "@
                + digits(key_len as nat) + " > "@ + digits(max as nat),
            Error::ValueTooLarge { value_len, max } => "cache value is too large: "@
                + digits(value_len as nat) + " > "@ + digits(max as nat),
            Error::InvalidLayout(message) => "invalid cache layout: "@ + message@,
        }
    }

    /// The error, in words.
    pub fn to_string(&self) -> (text: String)
        ensures
            text@ == self.text(),
    {
        match self {
            Error::StoreEmpty => "cache store must not be empty".to_owned(),
            Error::StoreTooLarge { store_len, max } => {
                let mut text: String = "cache store is too large: ".to_owned();
                push_number(&mut text, *store_len as u64);
                text.append(" > ");
                push_number(&mut text, *max as u64);
                text
            },
            Error::KeyEmpty => "cache key must not be empty".to_owned(),
            Error::KeyTooLarge { key_len, max } => {
                let mut text: String = "cache key is too large: ".to_owned();
                push_number(&mut text, *key_len as u64);
                text.append(" > ");
                push_number(&mut text, *max as u64);
                text
            },
            Error::ValueTooLarge { value_len, max } => {
                let mut text: String = "cache value is too large: ".to_owned();
                push_number(&mut text, *value_len as u64);
                text.append(" > ");
                push_number(&mut text, *max as u64);
                text
            },
            Error::InvalidLayout(message) => {
                let mut text: String = "invalid cache layout: ".to_owned();
                text.append(message);
                text
            },
        }
    }
}

} // verus!
