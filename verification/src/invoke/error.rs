//! Why the invocation transport refuses a request.
use vstd::prelude::*;
use vstd::string::*;

use crate::decimal::{digits, push_number};

verus! {

/// Why the invocation transport refuses a request.
#[derive(Debug, PartialEq, Eq)]
pub enum Error {
    /// The operation is empty, or nothing but white space.
    EmptyOperation,
    /// The operation is longer than the frame's length field allows.
    OperationTooLong(usize),
    /// An operation and a payload do not fit one frame.
    FrameTooLarge { operation_len: usize, payload_len: usize, max: usize },
    /// The invocation is of another operation.
    OperationMismatch { expected: &'static str, actual: String },
    /// A subscription missed this many frames.
    Lagged(u64),
    /// The codec refused the payload.
    Codec(String),
}

impl Error {
    /// The error, in words.
    pub open spec fn text(self) -> Seq<char> {
        match self {
            Error::EmptyOperation => "invocation operation cannot be empty"@,
            Error::OperationTooLong(len) => "invocation operation is too long: len="@
                + digits(len as nat) + " max=65535"@,
            Error::FrameTooLarge { operation_len, payload_len, max } => "invocation frame is too large: operation_len="@
                + digits(operation_len as nat) + " payload_len="@ + digits(payload_len as nat)
                + " max="@ + digits(max as nat),
            Error::OperationMismatch { expected, actual } => "invocation operation mismatch: expected "@
                + expected@ + ", got "@ + actual@,
            Error::Lagged(count) => "invocation subscription lagged by "@ + digits(count as nat)
                + " frame(s)"@,
            Error::Codec(error) => "invocation codec failed: "@ + error@,
        }
    }

    /// The error, in words.
    pub fn to_string(&self) -> (text: String)
        ensures
            text@ == self.text(),
    {
        match self {
            Error::EmptyOperation => "invocation operation cannot be empty".to_owned(),
            Error::OperationTooLong(len) => {
                let mut text: String = "invocation operation is too long: len=".to_owned();
                push_number(&mut text, *len as u64);
                text.append(" max=65535");
                text
            },
            Error::FrameTooLarge { operation_len, payload_len, max } => {
                let mut text: String = "invocation frame is too large: operation_len=".to_owned();
                push_number(&mut text, *operation_len as u64);
                text.append(" payload_len=");
                push_number(&mut text, *payload_len as u64);
                text.append(" max=");
                push_number(&mut text, *max as u64);
                text
            },
            Error::OperationMismatch { expected, actual } => {
                let mut text: String = "invocation operation mismatch: expected ".to_owned();
                text.append(expected);
                text.append(", got ");
                text.append(actual.as_str());
                text
            },
            Error::Lagged(count) => {
                let mut text: String = "invocation subscription lagged by ".to_owned();
                push_number(&mut text, *count as u64);
                text.append(" frame(s)");
                text
            },
            Error::Codec(error) => {
                let mut text: String = "invocation codec failed: ".to_owned();
                text.append(error.as_str());
                text
            },
        }
    }
}

} // verus!
