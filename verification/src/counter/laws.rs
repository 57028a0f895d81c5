//! What holds of every counter.
use vstd::prelude::*;

use crate::counter::{after_update, key_fault, updated, Error};

verus! {

/// An update changes the value of its key and of no other.
pub proof fn law_update_is_local(
    counters: Map<Seq<u8>, i64>,
    room: nat,
    key: Seq<u8>,
    delta: int,
    other: Seq<u8>,
)
    requires
        i64::MIN <= delta <= i64::MAX,
        other != key,
    ensures
        ({
            let after = after_update(counters, key, updated(counters, room, key, delta));
            &&& after.contains_key(other) == counters.contains_key(other)
            &&& counters.contains_key(other) ==> after[other] == counters[other]
        }),
{
}

/// An update that would leave the signed 64-bit range keeps the value.
pub proof fn law_overflow_keeps_the_value(
    counters: Map<Seq<u8>, i64>,
    room: nat,
    key: Seq<u8>,
    delta: int,
)
    requires
        updated(counters, room, key, delta) == Err::<i64, Error>(Error::Overflow),
    ensures
        after_update(counters, key, updated(counters, room, key, delta)) == counters,
        counters.contains_key(key),
        !(i64::MIN <= counters[key] + delta <= i64::MAX),
{
}

/// Two updates of a key add up, in either order, wherever all of them are
/// accepted.
pub proof fn law_updates_add_up(
    counters: Map<Seq<u8>, i64>,
    room: nat,
    key: Seq<u8>,
    one: int,
    other: int,
)
    requires
        i64::MIN <= one <= i64::MAX,
        i64::MIN <= other <= i64::MAX,
        updated(counters, room, key, one) is Ok,
        updated(counters, room, key, other) is Ok,
        i64::MIN <= one + other <= i64::MAX,
        counters.contains_key(key) ==> i64::MIN <= counters[key] + one + other <= i64::MAX,
    ensures
        ({
            let first = after_update(counters, key, updated(counters, room, key, one));
            let second = after_update(counters, key, updated(counters, room, key, other));
            &&& updated(first, room, key, other) == updated(second, room, key, one)
            &&& updated(first, room, key, other) == updated(counters, room, key, one + other)
        }),
{
}

/// What was counted up can be counted down again.
pub proof fn law_decrement_undoes_increment(
    counters: Map<Seq<u8>, i64>,
    room: nat,
    key: Seq<u8>,
    by: int,
)
    requires
        0 <= by <= i64::MAX,
        counters.contains_key(key),
        updated(counters, room, key, by) is Ok,
    ensures
        ({
            let after = after_update(counters, key, updated(counters, room, key, by));
            after_update(after, key, updated(after, room, key, -by)) =~= counters
        }),
{
}

/// A key that was installed stays updatable though the table is full.
pub proof fn law_full_table_keeps_counting(
    counters: Map<Seq<u8>, i64>,
    room: nat,
    key: Seq<u8>,
    delta: int,
)
    requires
        counters.contains_key(key),
        counters.dom().len() == room,
    ensures
        !(updated(counters, room, key, delta) matches Err(Error::StateFull { .. })),
{
}

/// An update gives the value that the counter had, or zero where it is new, and what was
/// added; and that is the value from then on. A sum outside of the signed 64-bit range is
/// refused, and a new key where there is no room for one.
pub proof fn law_update_gives_the_exact_sum(
    counters: Map<Seq<u8>, i64>,
    room: nat,
    key: Seq<u8>,
    delta: int,
)
    requires
        -0x8000_0000_0000_0000 <= delta <= 0x7FFF_FFFF_FFFF_FFFF,
    ensures
        ({
            let before = if counters.contains_key(key) {
                counters[key] as int
            } else {
                0
            };
            let result = updated(counters, room, key, delta);
            let after = after_update(counters, key, result);
            match result {
                Ok(sum) => {
                    &&& sum == before + delta
                    &&& after.contains_key(key)
                    &&& after[key] == sum
                },
                Err(error) => {
                    &&& after == counters
                    &&& {
                        ||| error == Error::KeyEmpty && key.len() == 0
                        ||| error is KeyTooLarge && key.len() > 240
                        ||| error == Error::Overflow && counters.contains_key(key) && !(
                        -0x8000_0000_0000_0000 <= before + delta <= 0x7FFF_FFFF_FFFF_FFFF)
                        ||| error is StateFull && !counters.contains_key(key)
                            && counters.dom().len() == room
                    }
                },
            }
        }),
{
}

/// Which keys are accepted: those that are not empty and no longer than a place has room
/// for.
pub proof fn law_keys_are_accepted_where_they_fit(key: Seq<u8>)
    ensures
        key_fault(key) is None <==> 1 <= key.len() <= 240,
        key.len() == 0 ==> key_fault(key) == Some(Error::KeyEmpty),
{
}

} // verus!
