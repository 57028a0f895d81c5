//! A node's place inside the fleet.
use vstd::prelude::*;
use vstd::string::*;

use crate::decimal::{digits, push_number};

verus! {

/// A node's slot inside the fleet, assigned when it joins.
#[derive(Clone, Copy, Debug, PartialEq, Eq, Hash, Structural)]
pub struct NodeId(pub u16);

impl NodeId {
    /// The node with this number.
    pub fn new(value: u16) -> (node: NodeId)
        ensures
            node == NodeId(value),
    {
        NodeId(value)
    }

    /// The node's number.
    pub fn get(self) -> (value: u16)
        ensures
            value == self.0,
    {
        self.0
    }

    /// The node, as a text.
    pub fn to_string(&self) -> (text: String)
        ensures
            text@ == "node:"@ + digits(self.0 as nat),
    {
        let mut text: String = "node:".to_owned();
        push_number(&mut text, self.0 as u64);
        text
    }
}

} // verus!
