//! Frame identifiers: the 64-bit ids of the `netid64` crate.
//!
//! An id packs a kind byte, a node and a 40-bit counter into one integer. The
//! packing itself is done by `netid64`; this module holds the raw integer and
//! says what the crate's field accessors give.
use vstd::prelude::*;

use crate::decimal::digits;

verus! {

/// The kind byte of a raw id: its top eight bits.
pub open spec fn kind_of(raw: u64) -> u8 {
    (raw / 0x100_0000_0000_0000) as u8
}

/// The node of a raw id: the sixteen bits below the kind.
pub open spec fn node_of(raw: u64) -> u16 {
    (raw / 0x100_0000_0000 % 0x1_0000) as u16
}

/// The counter of a raw id: its low forty bits.
pub open spec fn counter_of(raw: u64) -> u64 {
    raw % 0x100_0000_0000
}

/// The raw id with these parts. The counter keeps its low forty bits.
pub open spec fn pack(kind: u8, node: u16, counter: u64) -> u64 {
    (kind * 0x100_0000_0000_0000 + node * 0x100_0000_0000 + counter % 0x100_0000_0000) as u64
}

/// The parts of a packed id are the parts it was packed from, the counter
/// modulo two to the forty.
pub proof fn lemma_pack(kind: u8, node: u16, counter: u64)
    ensures
        kind_of(pack(kind, node, counter)) == kind,
        node_of(pack(kind, node, counter)) == node,
        counter_of(pack(kind, node, counter)) == counter % 0x100_0000_0000,
{
}

/// What an id keeps of a counter: the low forty bits.
pub open spec fn cut_counter(counter: u64) -> u64 {
    (counter as int % 0x100_0000_0000) as u64
}

/// An id is its kind, its node and its counter: packing the parts of an id gives
/// the id.
pub proof fn law_parts_name_the_id(raw: u64)
    ensures
        pack(kind_of(raw), node_of(raw), counter_of(raw)) == raw,
{
}

/// Counting on from a cut counter gives the ids of counting on from the
/// counter itself.
pub proof fn lemma_pack_onward(kind: u8, node: u16, counter: u64, steps: int)
    requires
        0 <= steps,
        counter + steps <= u64::MAX,
    ensures
        pack(kind, node, (counter_of(pack(kind, node, counter)) + steps) as u64) == pack(
            kind,
            node,
            (counter + steps) as u64,
        ),
{
    lemma_pack(kind, node, counter);
}

/// `netid64::NetId64::make`, then `raw`: the packed id.
#[verifier::external_body]
fn make_raw(kind: u8, node: u16, counter: u64) -> (raw: u64)
    ensures
        raw == pack(kind, node, counter),
{
    netid64::NetId64::make(kind, node, counter).raw()
}

/// `netid64::NetId64::kind`: the top eight bits.
#[verifier::external_body]
fn raw_kind(raw: u64) -> (kind: u8)
    ensures
        kind == kind_of(raw),
{
    netid64::NetId64::from_raw(raw).kind()
}

/// `netid64::NetId64::node`: the sixteen bits below the kind.
#[verifier::external_body]
fn raw_node(raw: u64) -> (node: u16)
    ensures
        node == node_of(raw),
{
    netid64::NetId64::from_raw(raw).node()
}

/// `netid64::NetId64::counter`: the low forty bits.
#[verifier::external_body]
fn raw_counter(raw: u64) -> (counter: u64)
    ensures
        counter == counter_of(raw),
{
    netid64::NetId64::from_raw(raw).counter()
}

/// The text of an id: kind, node and counter, with colons between them.
pub open spec fn text_form(raw: u64) -> Seq<char> {
    digits(kind_of(raw) as nat) + seq![':'] + digits(node_of(raw) as nat) + seq![':'] + digits(
        counter_of(raw) as nat,
    )
}

/// `Display` of `netid64::NetId64`: the three parts in decimal, with colons
/// between them.
#[verifier::external_body]
fn raw_text(raw: u64) -> (text: String)
    ensures
        text@ == text_form(raw),
{
    netid64::NetId64::from_raw(raw).to_string()
}

/// A runtime-bound identifier: kind, node and counter in one integer.
#[derive(Clone, Copy, Debug, PartialEq, Eq, Hash, Structural)]
pub struct NetId64(pub u64);

impl NetId64 {
    /// The id with these parts, as a specification.
    pub open spec fn of(kind: u8, node: u16, counter: u64) -> NetId64 {
        NetId64(pack(kind, node, counter))
    }

    /// The id built from a raw value.
    pub fn from_raw(raw: u64) -> (id: NetId64)
        ensures
            id == NetId64(raw),
    {
        NetId64(raw)
    }

    /// The raw value.
    pub fn raw(self) -> (raw: u64)
        ensures
            raw == self.0,
    {
        self.0
    }

    /// Which type this id refers to.
    pub fn kind(self) -> (kind: u8)
        ensures
            kind == kind_of(self.0),
    {
        raw_kind(self.0)
    }

    /// Which node minted this id.
    pub fn node(self) -> (node: u16)
        ensures
            node == node_of(self.0),
    {
        raw_node(self.0)
    }

    /// The position in the minter's sequence.
    pub fn counter(self) -> (counter: u64)
        ensures
            counter == counter_of(self.0),
    {
        raw_counter(self.0)
    }

    /// The id with these parts. The counter is cut to forty bits.
    pub fn make(kind: u8, node: u16, counter: u64) -> (id: NetId64)
        ensures
            id == NetId64::of(kind, node, counter),
    {
        NetId64(make_raw(kind, node, counter))
    }

    /// The text of the id.
    pub fn to_string(&self) -> (text: String)
        ensures
            text@ == text_form(self.0),
    {
        raw_text(self.0)
    }
}

} // verus!
