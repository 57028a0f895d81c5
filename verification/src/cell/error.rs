//! Why a cell refuses a request.
use vstd::prelude::*;
use vstd::string::*;

use crate::decimal::{digits, push_number};
use crate::text::{quote, quoted};

use crate::cell::ids::{CellId, TextId};

verus! {

/// Why a cell refuses a request.
#[non_exhaustive]
#[derive(Debug, PartialEq, Eq)]
pub enum Error {
    /// Nothing occupies the slot, or its generation was released.
    Stale(CellId),
    /// The same, for a text cell.
    StaleText(TextId),
    /// The text does not fit the cell; nothing was written.
    TooLong { len: usize, max: usize },
    /// A text cell held bytes that are not UTF-8.
    Corrupt(String),
    /// The id names a live cell of another type.
    TypeMismatch { id: CellId, expected: &'static str, found: &'static str },
    /// The update would leave the integer range.
    Overflow,
    /// Every slot is occupied.
    Full { capacity: usize },
    /// The text is not a cell id.
    Malformed(String),
}

impl Error {
    /// The error, in words.
    pub open spec fn text(self) -> Seq<char> {
        match self {
            Error::Stale(id) => "cell "@ + id.text() + " has been released"@,
            Error::StaleText(id) => "text cell "@ + id.text() + " has been released"@,
            Error::TooLong { len, max } => "text does not fit the cell: len="@ + digits(len as nat)
                + " max="@ + digits(max as nat),
            Error::Corrupt(id) => "text cell "@ + id@ + " holds bytes that are not UTF-8"@,
            Error::TypeMismatch { id, expected, found } => "cell "@ + id.text() + " holds "@
                + found@ + ", not "@ + expected@,
            Error::Overflow => "cell value is outside the integer range"@,
            Error::Full { capacity } => "cell table is full: capacity="@ + digits(capacity as nat),
            Error::Malformed(source) => "not a cell id: "@ + quoted(source@),
        }
    }

    /// The error, in words.
    pub fn to_string(&self) -> (text: String)
        ensures
            text@ == self.text(),
    {
        match self {
            Error::Stale(id) => {
                let mut text: String = "cell ".to_owned();
                text.append(id.to_string().as_str());
                text.append(" has been released");
                text
            },
            Error::StaleText(id) => {
                let mut text: String = "text cell ".to_owned();
                text.append(id.to_string().as_str());
                text.append(" has been released");
                text
            },
            Error::TooLong { len, max } => {
                let mut text: String = "text does not fit the cell: len=".to_owned();
                push_number(&mut text, *len as u64);
                text.append(" max=");
                push_number(&mut text, *max as u64);
                text
            },
            Error::Corrupt(id) => {
                let mut text: String = "text cell ".to_owned();
                text.append(id.as_str());
                text.append(" holds bytes that are not UTF-8");
                text
            },
            Error::TypeMismatch { id, expected, found } => {
                let mut text: String = "cell ".to_owned();
                text.append(id.to_string().as_str());
                text.append(" holds ");
                text.append(found);
                text.append(", not ");
                text.append(expected);
                text
            },
            Error::Overflow => "cell value is outside the integer range".to_owned(),
            Error::Full { capacity } => {
                let mut text: String = "cell table is full: capacity=".to_owned();
                push_number(&mut text, *capacity as u64);
                text
            },
            Error::Malformed(source) => {
                let mut text: String = "not a cell id: ".to_owned();
                text.append(quote(source.as_str()).as_str());
                text
            },
        }
    }
}

} // verus!
