//! The addresses of cells, and their text form.
use vstd::prelude::*;
use vstd::slice::slice_subrange;
use vstd::string::*;
use vstd::utf8::*;

use crate::cell::error::Error;
use crate::codec::same_bytes;
use crate::decimal::{
    all_digits, ascii, digits, is_digit, lemma_ascii, lemma_digits, number, parse_number,
    push_number, unsigned_part,
};

verus! {

/// The address of one cell: its slot and the generation it was allocated in.
///
/// Its text form is `cell:<slot>:<generation>`.
#[derive(Clone, Copy, Debug, PartialEq, Eq, Structural, Hash)]
pub struct CellId {
    pub index: u32,
    pub generation: u32,
}

/// The address of one text cell.
///
/// Its text form is `text:<slot>:<generation>`.
#[derive(Clone, Copy, Debug, PartialEq, Eq, Structural, Hash)]
pub struct TextId {
    pub index: u32,
    pub generation: u32,
}

/// The two halves of an address in one integer, slot high, generation low.
pub open spec fn joined(index: u32, generation: u32) -> int {
    index * 0x1_0000_0000 + generation
}

/// The text form of an address.
pub open spec fn id_text(prefix: Seq<char>, index: u32, generation: u32) -> Seq<char> {
    prefix + digits(index as nat) + seq![':'] + digits(generation as nat)
}

/// The place of the first colon, from a place on.
pub open spec fn colon_from(bytes: Seq<u8>, from: int) -> Option<int>
    decreases bytes.len() - from,
{
    if from >= bytes.len() {
        None
    } else if bytes[from] == 0x3A {
        Some(from)
    } else {
        colon_from(bytes, from + 1)
    }
}

/// The number of 32 bits that a text is.
pub open spec fn number_u32(bytes: Seq<u8>) -> Option<u32> {
    match number(bytes) {
        Some(value) => if value <= u32::MAX {
            Some(value as u32)
        } else {
            None
        },
        None => None,
    }
}

/// The two halves of the address that a text is: the prefix, a slot, a colon
/// and a generation.
pub open spec fn id_of(prefix: Seq<u8>, bytes: Seq<u8>) -> Option<(u32, u32)> {
    if prefix.len() <= bytes.len() && bytes.subrange(0, prefix.len() as int) == prefix {
        let rest = bytes.subrange(prefix.len() as int, bytes.len() as int);
        match colon_from(rest, 0) {
            Some(colon) => match (
                number_u32(rest.subrange(0, colon)),
                number_u32(rest.subrange(colon + 1, rest.len() as int)),
            ) {
                (Some(index), Some(generation)) => Some((index, generation)),
                _ => None,
            },
            None => None,
        }
    } else {
        None
    }
}

fn parse_u32(bytes: &[u8]) -> (parsed: Option<u32>)
    ensures
        parsed == number_u32(bytes@),
{
    match parse_number(bytes, 0xFFFF_FFFF) {
        Some(value) => Some(value as u32),
        None => None,
    }
}

fn find_colon(bytes: &[u8]) -> (colon: Option<usize>)
    ensures
        match colon {
            Some(colon) => colon_from(bytes@, 0) == Some(colon as int) && colon < bytes@.len(),
            None => colon_from(bytes@, 0) is None,
        },
{
    let mut index: usize = 0;
    while index < bytes.len()
        invariant
            index <= bytes@.len(),
            colon_from(bytes@, 0) == colon_from(bytes@, index as int),
        decreases bytes@.len() - index,
    {
        if bytes[index] == 0x3A {
            return Some(index);
        }
        index = index + 1;
    }
    None
}

/// Reads the two halves of an address.
fn parse_id(prefix: &[u8], bytes: &[u8]) -> (halves: Option<(u32, u32)>)
    ensures
        halves == id_of(prefix@, bytes@),
{
    if bytes.len() < prefix.len() {
        return None;
    }
    if !same_bytes(slice_subrange(bytes, 0, prefix.len()), prefix) {
        return None;
    }
    let rest: &[u8] = slice_subrange(bytes, prefix.len(), bytes.len());
    match find_colon(rest) {
        None => None,
        Some(colon) => {
            let index: Option<u32> = parse_u32(slice_subrange(rest, 0, colon));
            let generation: Option<u32> = parse_u32(slice_subrange(rest, colon + 1, rest.len()));
            match (index, generation) {
                (Some(index), Some(generation)) => Some((index, generation)),
                _ => None,
            }
        },
    }
}

/// Writes the text form of an address.
fn print_id(prefix: &str, index: u32, generation: u32) -> (text: String)
    ensures
        text@ == id_text(prefix@, index, generation),
{
    let mut text: String = prefix.to_owned();
    push_number(&mut text, index as u64);
    proof {
        reveal_strlit(":");
        assert(":"@ =~= seq![':']);
    }
    text.append(":");
    push_number(&mut text, generation as u64);
    text
}

proof fn lemma_no_colon(bytes: Seq<u8>, from: int, tail: Seq<u8>)
    requires
        all_digits(bytes),
        0 <= from <= bytes.len(),
    ensures
        colon_from(bytes + seq![0x3Au8] + tail, from) == Some(bytes.len() as int),
    decreases bytes.len() - from,
{
    let whole = bytes + seq![0x3Au8] + tail;
    if from < bytes.len() {
        assert(is_digit(bytes[from]));
        assert(whole[from] == bytes[from]);
        lemma_no_colon(bytes, from + 1, tail);
    } else {
        assert(whole[from] == 0x3A);
    }
}

proof fn lemma_number_of_digits(value: u32)
    ensures
        number_u32(ascii(digits(value as nat))) == Some(value),
{
    lemma_digits(value as nat);
    let bytes = ascii(digits(value as nat));
    assert(is_digit(bytes[0]));
    assert(unsigned_part(bytes) == bytes);
}

/// The text form of an address is read back as the address.
pub proof fn lemma_id_round_trip(prefix: Seq<char>, index: u32, generation: u32)
    requires
        is_ascii_chars(prefix),
    ensures
        id_of(encode_utf8(prefix), encode_utf8(id_text(prefix, index, generation))) == Some(
            (index, generation),
        ),
{
    let text = id_text(prefix, index, generation);
    lemma_digits(index as nat);
    lemma_digits(generation as nat);
    let high = ascii(digits(index as nat));
    let low = ascii(digits(generation as nat));
    assert(is_ascii_chars(text)) by {
        assert forall|i: int| 0 <= i < text.len() implies '\0' <= #[trigger] text[i] <= '\u{7f}' by {
            let a = prefix.len() as int;
            let b = digits(index as nat).len() as int;
            if i < a {
                assert(text[i] == prefix[i]);
            } else if i < a + b {
                assert(text[i] == digits(index as nat)[i - a]);
            } else if i == a + b {
                assert(text[i] == ':');
            } else {
                assert(text[i] == digits(generation as nat)[i - a - b - 1]);
            }
        }
    }
    lemma_ascii(text);
    lemma_ascii(prefix);
    let bytes = ascii(text);
    let head = ascii(prefix);
    assert(bytes =~= head + (high + seq![0x3Au8] + low));
    assert(bytes.subrange(0, head.len() as int) =~= head);
    let rest = bytes.subrange(head.len() as int, bytes.len() as int);
    assert(rest =~= high + seq![0x3Au8] + low);
    lemma_no_colon(high, 0, low);
    assert(rest.subrange(0, high.len() as int) =~= high);
    assert(rest.subrange(high.len() as int + 1, rest.len() as int) =~= low);
    lemma_number_of_digits(index);
    lemma_number_of_digits(generation);
}

impl CellId {
    /// The slot.
    pub fn index(self) -> (index: u32)
        ensures
            index == self.index,
    {
        self.index
    }

    /// The generation.
    pub fn generation(self) -> (generation: u32)
        ensures
            generation == self.generation,
    {
        self.generation
    }

    /// The two halves in one integer, slot high, generation low.
    pub fn to_bits(self) -> (bits: u64)
        ensures
            bits == joined(self.index, self.generation),
    {
        self.index as u64 * 0x1_0000_0000 + self.generation as u64
    }

    /// The address of these bits.
    pub fn from_bits(bits: u64) -> (id: CellId)
        ensures
            joined(id.index, id.generation) == bits,
    {
        CellId { index: (bits / 0x1_0000_0000) as u32, generation: (bits % 0x1_0000_0000) as u32 }
    }

    /// The text form, as characters.
    pub open spec fn text(self) -> Seq<char> {
        id_text("cell:"@, self.index, self.generation)
    }

    /// The text form.
    pub fn to_string(&self) -> (text: String)
        ensures
            text@ == self.text(),
    {
        print_id("cell:", self.index, self.generation)
    }

    /// The address that a text is.
    pub fn from_str(text: &str) -> (id: Result<CellId, Error>)
        ensures
            match id_of("cell:".spec_bytes(), text.spec_bytes()) {
                Some((index, generation)) => id == Ok::<CellId, Error>(
                    CellId { index, generation },
                ),
                None => id is Err && id->Err_0 is Malformed && id->Err_0->Malformed_0@ == text@,
            },
    {
        match parse_id("cell:".as_bytes(), text.as_bytes()) {
            Some((index, generation)) => Ok(CellId { index, generation }),
            None => Err(Error::Malformed(text.to_owned())),
        }
    }
}

impl TextId {
    /// The slot.
    pub fn index(self) -> (index: u32)
        ensures
            index == self.index,
    {
        self.index
    }

    /// The generation.
    pub fn generation(self) -> (generation: u32)
        ensures
            generation == self.generation,
    {
        self.generation
    }

    /// The two halves in one integer, slot high, generation low.
    pub fn to_bits(self) -> (bits: u64)
        ensures
            bits == joined(self.index, self.generation),
    {
        self.index as u64 * 0x1_0000_0000 + self.generation as u64
    }

    /// The address of these bits.
    pub fn from_bits(bits: u64) -> (id: TextId)
        ensures
            joined(id.index, id.generation) == bits,
    {
        TextId { index: (bits / 0x1_0000_0000) as u32, generation: (bits % 0x1_0000_0000) as u32 }
    }

    /// The text form, as characters.
    pub open spec fn text(self) -> Seq<char> {
        id_text("text:"@, self.index, self.generation)
    }

    /// The text form.
    pub fn to_string(&self) -> (text: String)
        ensures
            text@ == self.text(),
    {
        print_id("text:", self.index, self.generation)
    }

    /// The address that a text is.
    pub fn from_str(text: &str) -> (id: Result<TextId, Error>)
        ensures
            match id_of("text:".spec_bytes(), text.spec_bytes()) {
                Some((index, generation)) => id == Ok::<TextId, Error>(
                    TextId { index, generation },
                ),
                None => id is Err && id->Err_0 is Malformed && id->Err_0->Malformed_0@ == text@,
            },
    {
        match parse_id("text:".as_bytes(), text.as_bytes()) {
            Some((index, generation)) => Ok(TextId { index, generation }),
            None => Err(Error::Malformed(text.to_owned())),
        }
    }
}

/// Different addresses have different bits.
pub proof fn law_bits_name_one_address(one: CellId, other: CellId)
    ensures
        joined(one.index, one.generation) == joined(other.index, other.generation) ==> one == other,
{
}

/// The text form of a cell's address is read back as the address.
pub proof fn law_cell_id_round_trip(id: CellId)
    ensures
        id_of("cell:".spec_bytes(), encode_utf8(id.text())) == Some((id.index, id.generation)),
{
    reveal_strlit("cell:");
    lemma_id_round_trip("cell:"@, id.index, id.generation);
}

/// The text form of a text cell's address is read back as the address.
pub proof fn law_text_id_round_trip(id: TextId)
    ensures
        id_of("text:".spec_bytes(), encode_utf8(id.text())) == Some((id.index, id.generation)),
{
    reveal_strlit("text:");
    lemma_id_round_trip("text:"@, id.index, id.generation);
}

/// Only an address is read as one: what is read has the prefix, then a number, a colon and
/// a number, and nothing else.
pub proof fn law_only_addresses_are_read(prefix: Seq<u8>, bytes: Seq<u8>)
    ensures
        id_of(prefix, bytes) matches Some((index, generation)) ==> exists|colon: int|
            prefix.len() <= colon < bytes.len() && #[trigger] bytes[colon] == 0x3A
                && prefix.is_prefix_of(bytes) && number(
                bytes.subrange(prefix.len() as int, colon),
            ) == Some(index as nat) && number(
                bytes.subrange(colon + 1, bytes.len() as int),
            ) == Some(generation as nat),
        !prefix.is_prefix_of(bytes) ==> id_of(prefix, bytes) is None,
{
    if let Some((index, generation)) = id_of(prefix, bytes) {
        let rest = bytes.subrange(prefix.len() as int, bytes.len() as int);
        lemma_colon(rest, 0);
        let colon = colon_from(rest, 0)->0;
        let at = prefix.len() + colon;
        assert(bytes[at] == rest[colon]);
        assert(rest.subrange(0, colon) =~= bytes.subrange(prefix.len() as int, at));
        assert(rest.subrange(colon + 1, rest.len() as int) =~= bytes.subrange(
            at + 1,
            bytes.len() as int,
        ));
        assert(bytes[at] == 0x3A);
    }
}

proof fn lemma_colon(bytes: Seq<u8>, from: int)
    requires
        0 <= from,
    ensures
        colon_from(bytes, from) matches Some(colon) ==> from <= colon < bytes.len() && bytes[colon]
            == 0x3A,
    decreases bytes.len() - from,
{
    if from < bytes.len() && bytes[from] != 0x3A {
        lemma_colon(bytes, from + 1);
    }
}

/// The bits of an address are its index, in the upper half, and its generation.
pub proof fn law_bits_hold_index_and_generation(index: u32, generation: u32)
    ensures
        joined(index, generation) / 0x1_0000_0000 == index,
        joined(index, generation) % 0x1_0000_0000 == generation,
        joined(index, generation) <= u64::MAX,
{
}

} // verus!
