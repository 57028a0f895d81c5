//! Errors of the fleet and its rings.
use vstd::prelude::*;
use vstd::string::*;

use crate::decimal::{digits, push_number};

verus! {

/// Why joining a fleet failed.
#[derive(Debug, PartialEq, Eq)]
pub enum Error {
    /// The fleet was joined before in this process.
    AlreadyJoined { name: String },
    /// A fleet needs at least one addressable node.
    EmptyFleet,
    /// A node must address one of the fleet's lanes.
    NodeOutsideFleet { node_id: u16, fleet_capacity: u16 },
}

impl Error {
    /// The error, in words.
    pub open spec fn text(self) -> Seq<char> {
        match self {
            Error::AlreadyJoined { name } => "fleet '"@ + name@
                + "' has already been joined in this process"@,
            Error::EmptyFleet => "fleet_capacity must be ≥ 1; Orbit needs at least one node lane"@,
            Error::NodeOutsideFleet { node_id, fleet_capacity } => "node_id "@
                + digits(node_id as nat) + " is outside fleet_capacity "@
                + digits(fleet_capacity as nat),
        }
    }

    /// The error, in words.
    pub fn to_string(&self) -> (text: String)
        ensures
            text@ == self.text(),
    {
        match self {
            Error::AlreadyJoined { name } => {
                let mut text: String = "fleet '".to_owned();
                text.append(name.as_str());
                text.append("' has already been joined in this process");
                text
            },
            Error::EmptyFleet => "fleet_capacity must be ≥ 1; Orbit needs at least one node lane".to_owned(),
            Error::NodeOutsideFleet { node_id, fleet_capacity } => {
                let mut text: String = "node_id ".to_owned();
                push_number(&mut text, *node_id as u64);
                text.append(" is outside fleet_capacity ");
                push_number(&mut text, *fleet_capacity as u64);
                text
            },
        }
    }
}

} // verus!
