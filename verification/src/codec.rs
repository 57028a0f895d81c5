//! Little-endian integers in byte sequences.
use vstd::prelude::*;

verus! {

/// The two bytes of `value`, low byte first.
#[verifier::opaque]
pub open spec fn le16(value: u16) -> Seq<u8> {
    seq![(value % 256) as u8, (value / 256) as u8]
}

/// The four bytes of `value`, low byte first.
#[verifier::opaque]
pub open spec fn le32(value: u32) -> Seq<u8> {
    le16((value % 0x1_0000) as u16) + le16((value / 0x1_0000) as u16)
}

/// The eight bytes of `value`, low byte first.
#[verifier::opaque]
pub open spec fn le64(value: u64) -> Seq<u8> {
    le32((value % 0x1_0000_0000) as u32) + le32((value / 0x1_0000_0000) as u32)
}

/// The integer whose two bytes, low byte first, stand at `at`.
#[verifier::opaque]
pub open spec fn u16_at(bytes: Seq<u8>, at: int) -> u16 {
    (bytes[at] + 256 * bytes[at + 1]) as u16
}

/// The integer whose four bytes, low byte first, stand at `at`.
#[verifier::opaque]
pub open spec fn u32_at(bytes: Seq<u8>, at: int) -> u32 {
    (u16_at(bytes, at) + 0x1_0000 * u16_at(bytes, at + 2)) as u32
}

/// The integer whose eight bytes, low byte first, stand at `at`.
#[verifier::opaque]
pub open spec fn u64_at(bytes: Seq<u8>, at: int) -> u64 {
    (u32_at(bytes, at) + 0x1_0000_0000 * u32_at(bytes, at + 4)) as u64
}

/// True when the bytes of `part` stand in `bytes` from `at` on.
pub open spec fn stands_at(bytes: Seq<u8>, at: int, part: Seq<u8>) -> bool {
    &&& 0 <= at
    &&& at + part.len() <= bytes.len()
    &&& bytes.subrange(at, at + part.len()) == part
}

/// The encoding of a 16-bit integer has two bytes.
pub broadcast proof fn lemma_width16(value: u16)
    ensures
        (#[trigger] le16(value)).len() == 2,
{
    reveal(le16);
}

/// The encoding of a 32-bit integer has four bytes.
pub broadcast proof fn lemma_width32(value: u32)
    ensures
        (#[trigger] le32(value)).len() == 4,
{
    reveal(le16);
    reveal(le32);
}

/// The encoding of a 64-bit integer has eight bytes.
pub broadcast proof fn lemma_width64(value: u64)
    ensures
        (#[trigger] le64(value)).len() == 8,
{
    reveal(le16);
    reveal(le32);
    reveal(le64);
}

pub broadcast group group_widths {
    lemma_width16,
    lemma_width32,
    lemma_width64,
}

/// Byte sequences that agree where an integer stands hold the same integer
/// there.
pub proof fn lemma_same_u16(one: Seq<u8>, other: Seq<u8>, at: int)
    requires
        agree(one, other, at, at + 2),
    ensures
        u16_at(one, at) == u16_at(other, at),
{
    reveal(u16_at);
}

/// Byte sequences that agree where an integer stands hold the same integer
/// there.
pub proof fn lemma_same_u32(one: Seq<u8>, other: Seq<u8>, at: int)
    requires
        agree(one, other, at, at + 4),
    ensures
        u32_at(one, at) == u32_at(other, at),
{
    reveal(u32_at);
    lemma_same_u16(one, other, at);
    lemma_same_u16(one, other, at + 2);
}

/// Byte sequences that agree where an integer stands hold the same integer
/// there.
pub proof fn lemma_same_u64(one: Seq<u8>, other: Seq<u8>, at: int)
    requires
        agree(one, other, at, at + 8),
    ensures
        u64_at(one, at) == u64_at(other, at),
{
    reveal(u64_at);
    lemma_same_u32(one, other, at);
    lemma_same_u32(one, other, at + 4);
}

/// An integer of a section is the integer at the section's place.
pub proof fn lemma_section_words(bytes: Seq<u8>, from: int, to: int, at: int)
    requires
        0 <= from <= to <= bytes.len(),
        0 <= at,
    ensures
        from + at + 4 <= to ==> u32_at(bytes.subrange(from, to), at) == u32_at(bytes, from + at),
        from + at + 8 <= to ==> u64_at(bytes.subrange(from, to), at) == u64_at(bytes, from + at),
{
    reveal(u16_at);
    reveal(u32_at);
    reveal(u64_at);
}

/// Zero bytes hold the integer zero.
pub proof fn lemma_zero_words(bytes: Seq<u8>, at: int)
    requires
        forall|i: int| at <= i < at + 8 ==> bytes[i] == 0,
    ensures
        u64_at(bytes, at) == 0,
        u32_at(bytes, at) == 0,
{
    reveal(u16_at);
    reveal(u32_at);
    reveal(u64_at);
}

/// Where the two bytes of a value stand, the value is read back.
pub proof fn lemma_read_u16(bytes: Seq<u8>, at: int, value: u16)
    requires
        stands_at(bytes, at, le16(value)),
    ensures
        u16_at(bytes, at) == value,
{
    broadcast use group_widths;

    reveal(le16);
    reveal(u16_at);
    let part = bytes.subrange(at, at + 2);
    assert(part[0] == bytes[at]);
    assert(part[1] == bytes[at + 1]);
    assert(le16(value)[0] == (value % 256) as u8);
    assert(le16(value)[1] == (value / 256) as u8);
}

/// Where the four bytes of a value stand, the value is read back.
pub proof fn lemma_read_u32(bytes: Seq<u8>, at: int, value: u32)
    requires
        stands_at(bytes, at, le32(value)),
    ensures
        u32_at(bytes, at) == value,
{
    broadcast use group_widths;

    reveal(le32);
    reveal(u32_at);
    let low = (value % 0x1_0000) as u16;
    let high = (value / 0x1_0000) as u16;
    let part = bytes.subrange(at, at + 4);
    assert(part.subrange(0, 2) =~= le16(low));
    assert(part.subrange(2, 4) =~= le16(high));
    assert(bytes.subrange(at, at + 2) =~= part.subrange(0, 2));
    assert(bytes.subrange(at + 2, at + 4) =~= part.subrange(2, 4));
    lemma_read_u16(bytes, at, low);
    lemma_read_u16(bytes, at + 2, high);
}

/// Where the eight bytes of a value stand, the value is read back.
pub proof fn lemma_read_u64(bytes: Seq<u8>, at: int, value: u64)
    requires
        stands_at(bytes, at, le64(value)),
    ensures
        u64_at(bytes, at) == value,
{
    broadcast use group_widths;

    reveal(le64);
    reveal(u64_at);
    let low = (value % 0x1_0000_0000) as u32;
    let high = (value / 0x1_0000_0000) as u32;
    let part = bytes.subrange(at, at + 8);
    assert(part.subrange(0, 4) =~= le32(low));
    assert(part.subrange(4, 8) =~= le32(high));
    assert(bytes.subrange(at, at + 4) =~= part.subrange(0, 4));
    assert(bytes.subrange(at + 4, at + 8) =~= part.subrange(4, 8));
    lemma_read_u32(bytes, at, low);
    lemma_read_u32(bytes, at + 4, high);
}

/// Reads the integer at `at`.
pub fn read_u16(bytes: &[u8], at: usize) -> (value: u16)
    requires
        at + 2 <= bytes@.len(),
    ensures
        value == u16_at(bytes@, at as int),
{
    proof {
        reveal(u16_at);
    }
    bytes[at] as u16 + 256 * (bytes[at + 1] as u16)
}

/// Reads the integer at `at`.
pub fn read_u32(bytes: &[u8], at: usize) -> (value: u32)
    requires
        at + 4 <= bytes@.len(),
    ensures
        value == u32_at(bytes@, at as int),
{
    proof {
        reveal(u32_at);
    }
    assert(at + 4 <= bytes.len());
    let low: u16 = read_u16(bytes, at);
    let high: u16 = read_u16(bytes, at + 2);
    low as u32 + 0x1_0000 * (high as u32)
}

/// Reads the integer at `at`.
pub fn read_u64(bytes: &[u8], at: usize) -> (value: u64)
    requires
        at + 8 <= bytes@.len(),
    ensures
        value == u64_at(bytes@, at as int),
{
    proof {
        reveal(u64_at);
    }
    assert(at + 8 <= bytes.len());
    let low: u32 = read_u32(bytes, at);
    let high: u32 = read_u32(bytes, at + 4);
    low as u64 + 0x1_0000_0000 * (high as u64)
}

/// Appends the two bytes of `value`, low byte first.
pub fn push_u16(bytes: &mut Vec<u8>, value: u16)
    ensures
        final(bytes)@ == old(bytes)@ + le16(value),
{
    proof {
        reveal(le16);
    }
    bytes.push((value % 256) as u8);
    bytes.push((value / 256) as u8);
}

/// Appends the four bytes of `value`, low byte first.
pub fn push_u32(bytes: &mut Vec<u8>, value: u32)
    ensures
        final(bytes)@ == old(bytes)@ + le32(value),
{
    proof {
        reveal(le32);
    }
    push_u16(bytes, (value % 0x1_0000) as u16);
    push_u16(bytes, (value / 0x1_0000) as u16);
}

/// Appends the eight bytes of `value`, low byte first.
pub fn push_u64(bytes: &mut Vec<u8>, value: u64)
    ensures
        final(bytes)@ == old(bytes)@ + le64(value),
{
    proof {
        reveal(le64);
    }
    push_u32(bytes, (value % 0x1_0000_0000) as u32);
    push_u32(bytes, (value / 0x1_0000_0000) as u32);
}

/// `bytes` with `part` written over what stands from `at` on.
pub open spec fn overwrite(bytes: Seq<u8>, at: int, part: Seq<u8>) -> Seq<u8> {
    Seq::new(
        bytes.len(),
        |i: int| if at <= i < at + part.len() { part[i - at] } else { bytes[i] },
    )
}

/// What was written over stands where it was written, and the bytes outside
/// it are unchanged.
pub proof fn lemma_overwrite(bytes: Seq<u8>, at: int, part: Seq<u8>)
    requires
        0 <= at,
        at + part.len() <= bytes.len(),
    ensures
        overwrite(bytes, at, part).len() == bytes.len(),
        stands_at(overwrite(bytes, at, part), at, part),
        forall|i: int|
            0 <= i < bytes.len() && !(at <= i < at + part.len()) ==> #[trigger] overwrite(
                bytes,
                at,
                part,
            )[i] == bytes[i],
{
    assert(overwrite(bytes, at, part).subrange(at, at + part.len()) =~= part);
}

/// A part of what stands somewhere stands at the part's place.
pub proof fn lemma_stands_part(bytes: Seq<u8>, at: int, part: Seq<u8>, from: int, to: int)
    requires
        stands_at(bytes, at, part),
        0 <= from <= to <= part.len(),
    ensures
        stands_at(bytes, at + from, part.subrange(from, to)),
{
    let place = bytes.subrange(at, at + part.len());
    assert(bytes.subrange(at + from, at + to) =~= place.subrange(from, to));
}

/// True when both byte sequences agree from `from` up to `to`.
pub open spec fn agree(one: Seq<u8>, other: Seq<u8>, from: int, to: int) -> bool {
    forall|i: int| from <= i < to ==> #[trigger] one[i] == other[i]
}

/// What stands in one sequence stands in another that agrees with it there.
pub proof fn lemma_stands_kept(one: Seq<u8>, other: Seq<u8>, at: int, part: Seq<u8>)
    requires
        stands_at(one, at, part),
        other.len() == one.len(),
        agree(other, one, at, at + part.len()),
    ensures
        stands_at(other, at, part),
{
    assert(other.subrange(at, at + part.len()) =~= one.subrange(at, at + part.len()));
}

/// Writes `part` over the bytes of `bytes` from `at` on.
pub fn write_over(bytes: &mut Vec<u8>, at: usize, part: &[u8])
    requires
        at + part@.len() <= old(bytes)@.len(),
    ensures
        final(bytes)@ == overwrite(old(bytes)@, at as int, part@),
{
    let mut i: usize = 0;
    while i < part.len()
        invariant
            i <= part@.len(),
            at + part@.len() <= bytes@.len(),
            bytes@.len() == old(bytes)@.len(),
            bytes@ == overwrite(old(bytes)@, at as int, part@.subrange(0, i as int)),
        decreases part@.len() - i,
    {
        assert(at + i < bytes.len());
        bytes.set(at + i, part[i]);
        i = i + 1;
        assert(bytes@ =~= overwrite(old(bytes)@, at as int, part@.subrange(0, i as int)));
    }
    assert(part@.subrange(0, part@.len() as int) =~= part@);
}

/// True when both slices hold the same bytes.
pub fn same_bytes(left: &[u8], right: &[u8]) -> (same: bool)
    ensures
        same == (left@ == right@),
{
    if left.len() != right.len() {
        return false;
    }
    let mut i: usize = 0;
    while i < left.len()
        invariant
            i <= left@.len(),
            left@.len() == right@.len(),
            forall|j: int| 0 <= j < i ==> left@[j] == right@[j],
        decreases left@.len() - i,
    {
        if left[i] != right[i] {
            return false;
        }
        i = i + 1;
    }
    assert(left@ =~= right@);
    true
}

/// The slice's bytes as a vector of their own.
pub fn to_vec(slice: &[u8]) -> (bytes: Vec<u8>)
    ensures
        bytes@ == slice@,
{
    let mut bytes: Vec<u8> = Vec::new();
    let mut i: usize = 0;
    while i < slice.len()
        invariant
            i <= slice@.len(),
            bytes@ == slice@.subrange(0, i as int),
        decreases slice@.len() - i,
    {
        bytes.push(slice[i]);
        i = i + 1;
        assert(slice@.subrange(0, i as int) =~= slice@.subrange(0, i - 1).push(slice@[i - 1]));
    }
    assert(slice@.subrange(0, slice@.len() as int) =~= slice@);
    bytes
}

/// A vector of `len` zero bytes.
pub fn zeroes(len: usize) -> (bytes: Vec<u8>)
    ensures
        bytes@ == Seq::new(len as nat, |i: int| 0u8),
{
    let bytes: Vec<u8> = vec![0u8; len];
    assert(bytes@ =~= Seq::new(len as nat, |i: int| 0u8));
    bytes
}

/// Two bytes are those of the number that they spell.
pub proof fn lemma_words_spell(bytes: Seq<u8>, at: int)
    requires
        0 <= at,
        at + 2 <= bytes.len(),
    ensures
        bytes.subrange(at, at + 2) == le16(u16_at(bytes, at)),
{
    reveal(le16);
    reveal(u16_at);
    assert(bytes.subrange(at, at + 2) =~= le16(u16_at(bytes, at)));
}

/// Four bytes are those of the number that they spell.
pub proof fn lemma_double_spells(bytes: Seq<u8>, at: int)
    requires
        0 <= at,
        at + 4 <= bytes.len(),
    ensures
        bytes.subrange(at, at + 4) == le32(u32_at(bytes, at)),
{
    broadcast use group_widths;

    reveal(le32);
    reveal(u32_at);
    lemma_words_spell(bytes, at);
    lemma_words_spell(bytes, at + 2);
    let low = u16_at(bytes, at);
    let high = u16_at(bytes, at + 2);
    let value = u32_at(bytes, at);
    assert(value == low + 0x1_0000 * high);
    assert(value % 0x1_0000 == low && value / 0x1_0000 == high);
    assert(bytes.subrange(at, at + 4) =~= bytes.subrange(at, at + 2) + bytes.subrange(
        at + 2,
        at + 4,
    ));
}

/// Eight bytes are those of the number that they spell.
pub proof fn lemma_long_spells(bytes: Seq<u8>, at: int)
    requires
        0 <= at,
        at + 8 <= bytes.len(),
    ensures
        bytes.subrange(at, at + 8) == le64(u64_at(bytes, at)),
{
    broadcast use group_widths;

    reveal(le64);
    reveal(u64_at);
    lemma_double_spells(bytes, at);
    lemma_double_spells(bytes, at + 4);
    let low = u32_at(bytes, at);
    let high = u32_at(bytes, at + 4);
    let value = u64_at(bytes, at);
    assert(value == low + 0x1_0000_0000 * high);
    assert(value % 0x1_0000_0000 == low && value / 0x1_0000_0000 == high);
    assert(bytes.subrange(at, at + 8) =~= bytes.subrange(at, at + 4) + bytes.subrange(
        at + 4,
        at + 8,
    ));
}

/// Integers stand with the least significant byte first: each byte counts 256 times as
/// much as the one before it.
pub proof fn law_integers_stand_low_byte_first(bytes: Seq<u8>, at: int)
    ensures
        u16_at(bytes, at) == bytes[at] + 256 * bytes[at + 1],
        u32_at(bytes, at) == bytes[at] + 256 * (bytes[at + 1] + 256 * (bytes[at + 2] + 256
            * bytes[at + 3])),
        u64_at(bytes, at) == bytes[at] + 256 * (bytes[at + 1] + 256 * (bytes[at + 2] + 256 * (
        bytes[at + 3] + 256 * (bytes[at + 4] + 256 * (bytes[at + 5] + 256 * (bytes[at + 6] + 256
            * bytes[at + 7])))))),
{
    reveal(u16_at);
    reveal(u32_at);
    reveal(u64_at);
}

} // verus!
