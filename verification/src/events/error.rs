//! Why the event bus refuses a request.
use vstd::prelude::*;
use vstd::string::*;

use crate::decimal::{digits, push_number};

verus! {

/// Why the event bus refuses a request.
#[derive(Debug, PartialEq, Eq)]
pub enum Error {
    /// A topic and a payload do not fit one event frame.
    FrameTooLarge { topic_len: usize, payload_len: usize, max_payload: usize },
    /// The layout cannot be used.
    InvalidLayout(&'static str),
}

impl Error {
    /// The error, in words.
    pub open spec fn text(self) -> Seq<char> {
        match self {
            Error::FrameTooLarge { topic_len, payload_len, max_payload } => "orbit event frame too large: topic_len="@
                + digits(topic_len as nat) + " payload_len="@ + digits(payload_len as nat)
                + " max_payload="@ + digits(max_payload as nat),
            Error::InvalidLayout(message) => "invalid event layout: "@ + message@,
        }
    }

    /// The error, in words.
    pub fn to_string(&self) -> (text: String)
        ensures
            text@ == self.text(),
    {
        match self {
            Error::FrameTooLarge { topic_len, payload_len, max_payload } => {
                let mut text: String = "orbit event frame too large: topic_len=".to_owned();
                push_number(&mut text, *topic_len as u64);
                text.append(" payload_len=");
                push_number(&mut text, *payload_len as u64);
                text.append(" max_payload=");
                push_number(&mut text, *max_payload as u64);
                text
            },
            Error::InvalidLayout(message) => {
                let mut text: String = "invalid event layout: ".to_owned();
                text.append(message);
                text
            },
        }
    }
}

} // verus!
