//! Small arithmetic helpers shared by the fixed-capacity structures.
use vstd::arithmetic::div_mod::{lemma_mod_mod, lemma_small_mod, lemma_sub_mod_noop};
use vstd::arithmetic::power2::is_pow2;
use vstd::prelude::*;

verus! {

/// True when `value` is a power of two.
pub fn is_power_of_two(value: usize) -> (yes: bool)
    ensures
        yes == is_pow2(value as int),
{
    proof {
        reveal(is_pow2);
    }
    if value == 0 {
        return false;
    }
    let mut rest: usize = value;
    while rest > 1
        invariant
            rest >= 1,
            is_pow2(value as int) == is_pow2(rest as int),
        decreases rest,
    {
        proof {
            reveal(is_pow2);
        }
        if rest % 2 != 0 {
            return false;
        }
        rest = rest / 2;
    }
    true
}

/// The smaller of two sizes.
pub open spec fn min_of(a: int, b: int) -> int {
    if a <= b {
        a
    } else {
        b
    }
}

/// The larger of two sizes.
pub open spec fn max_of(a: int, b: int) -> int {
    if a >= b {
        a
    } else {
        b
    }
}

/// The smaller of two sizes.
pub fn min_usize(a: usize, b: usize) -> (r: usize)
    ensures
        r == min_of(a as int, b as int),
{
    if a <= b {
        a
    } else {
        b
    }
}

/// The smaller of two integers.
pub fn min_u64(a: u64, b: u64) -> (r: u64)
    ensures
        r == min_of(a as int, b as int),
{
    if a <= b {
        a
    } else {
        b
    }
}

/// The larger of two integers.
pub fn max_u64(a: u64, b: u64) -> (r: u64)
    ensures
        r == max_of(a as int, b as int),
{
    if a >= b {
        a
    } else {
        b
    }
}

/// The counter after `counter`. The one after the largest is zero.
pub open spec fn successor(counter: u64) -> u64 {
    if counter == u64::MAX {
        0
    } else {
        (counter + 1) as u64
    }
}

/// Two different counters less than `capacity` apart fall into different
/// slots.
pub proof fn lemma_slots_differ(a: int, b: int, capacity: int)
    requires
        0 < capacity,
        0 < b - a < capacity,
    ensures
        a % capacity != b % capacity,
{
    if a % capacity == b % capacity {
        lemma_sub_mod_noop(b, a, capacity);
        lemma_small_mod((b - a) as nat, capacity as nat);
        assert(((b % capacity) - (a % capacity)) % capacity == 0) by {
            lemma_small_mod(0, capacity as nat);
        }
    }
}

/// A power of two that is at most a second power of two divides it.
pub proof fn lemma_pow2_divides(small: nat, large: nat)
    requires
        is_pow2(small as int),
        is_pow2(large as int),
        small <= large,
    ensures
        exists|q: nat| 0 < q && large == #[trigger] (small * q),
    decreases large,
{
    reveal(is_pow2);
    if small == 1 {
        assert(large == small * large);
    } else {
        let half = small / 2;
        lemma_pow2_divides(half, large / 2);
        let q = choose|q: nat| 0 < q && large / 2 == #[trigger] (half * q);
        assert(2 * (half * q) == (2 * half) * q) by (nonlinear_arith);
        assert(large == small * q);
    }
}

/// Cutting a counter to forty bits does not change its slot in a ring whose
/// power-of-two capacity is at most two to the forty.
pub proof fn lemma_cut_counter(counter: nat, capacity: nat)
    requires
        is_pow2(capacity as int),
        0 < capacity <= 0x100_0000_0000,
    ensures
        (counter % 0x100_0000_0000) % capacity == counter % capacity,
{
    assert(is_pow2(0x100_0000_0000)) by {
        reveal_with_fuel(is_pow2, 42);
    }
    lemma_pow2_divides(capacity, 0x100_0000_0000);
    let q = choose|q: nat| 0 < q && 0x100_0000_0000 == #[trigger] (capacity * q);
    lemma_mod_mod(counter as int, capacity as int, q as int);
}

} // verus!
