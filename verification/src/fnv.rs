//! The FNV-1a hash of a byte sequence.
use vstd::prelude::*;

verus! {

pub const FNV_OFFSET_BASIS: u64 = 0xcbf2_9ce4_8422_2325;

pub const FNV_PRIME: u64 = 0x0000_0100_0000_01b3;

/// The hash after these bytes, of which the hash before them was `hash`.
pub open spec fn fnv_from(hash: u64, bytes: Seq<u8>) -> u64
    decreases bytes.len(),
{
    if bytes.len() == 0 {
        hash
    } else {
        (fnv_from(hash, bytes.drop_last()) ^ (bytes.last() as u64)).wrapping_mul(FNV_PRIME)
    }
}

/// The hash of these bytes.
pub open spec fn fnv(bytes: Seq<u8>) -> u64 {
    fnv_from(FNV_OFFSET_BASIS, bytes)
}

/// Hashing on from the hash of a prefix hashes the whole.
pub proof fn lemma_fnv_concat(hash: u64, one: Seq<u8>, other: Seq<u8>)
    ensures
        fnv_from(fnv_from(hash, one), other) == fnv_from(hash, one + other),
    decreases other.len(),
{
    if other.len() == 0 {
        assert(one + other =~= one);
    } else {
        lemma_fnv_concat(hash, one, other.drop_last());
        assert((one + other).drop_last() =~= one + other.drop_last());
    }
}

/// The hash after these bytes, of which the hash before them was `hash`.
pub fn hash_from(hash: u64, bytes: &[u8]) -> (result: u64)
    ensures
        result == fnv_from(hash, bytes@),
{
    let mut result: u64 = hash;
    let mut index: usize = 0;
    assert(bytes@.subrange(0, 0) =~= Seq::<u8>::empty());
    while index < bytes.len()
        invariant
            index <= bytes@.len(),
            result == fnv_from(hash, bytes@.subrange(0, index as int)),
        decreases bytes@.len() - index,
    {
        let ghost prefix = bytes@.subrange(0, index + 1);
        assert(prefix.drop_last() =~= bytes@.subrange(0, index as int));
        assert(prefix.last() == bytes@[index as int]);
        result = (result ^ (bytes[index] as u64)).wrapping_mul(FNV_PRIME);
        index = index + 1;
    }
    assert(bytes@.subrange(0, bytes@.len() as int) =~= bytes@);
    result
}

/// The hash of these bytes.
pub fn hash_of(bytes: &[u8]) -> (result: u64)
    ensures
        result == fnv(bytes@),
{
    hash_from(FNV_OFFSET_BASIS, bytes)
}

/// The hash takes in one byte after the other: each is mixed in by an exclusive or, and
/// then spread by the prime, from the basis on.
pub proof fn law_hash_takes_in_byte_by_byte(bytes: Seq<u8>, byte: u8)
    ensures
        fnv(Seq::empty()) == 0xcbf2_9ce4_8422_2325,
        fnv(bytes.push(byte)) == (fnv(bytes) ^ (byte as u64)).wrapping_mul(0x100_0000_01b3),
{
    assert(bytes.push(byte).drop_last() =~= bytes);
}

} // verus!
