//! Geometry that is selected from outside, as decimal text.
use vstd::prelude::*;
use vstd::string::*;

use crate::decimal::{ascii, digits, is_digit, lemma_digits, lemma_spelled_grows, spelled};

verus! {

/// Why a selected value is refused.
#[derive(Clone, Copy, Debug, PartialEq, Eq, Structural)]
pub enum ValueFault {
    /// There is no text.
    Empty,
    /// An underscore that does not stand between two digits.
    InvalidSeparator,
    /// Something else than a digit or an underscore.
    NotDecimal,
    /// The number does not fit `usize`.
    Overflow,
}

/// What is wrong with a text at one place, when all before it is right.
pub open spec fn fault_at(bytes: Seq<u8>, i: int) -> Option<ValueFault> {
    if bytes[i] == 0x5F {
        if i > 0 && bytes[i - 1] != 0x5F && i + 1 < bytes.len() {
            None
        } else {
            Some(ValueFault::InvalidSeparator)
        }
    } else if !is_digit(bytes[i]) {
        Some(ValueFault::NotDecimal)
    } else if spelled(bytes.subrange(0, i + 1)) > usize::MAX {
        Some(ValueFault::Overflow)
    } else {
        None
    }
}

/// The first thing that is wrong with a text, from a place on.
pub open spec fn fault_from(bytes: Seq<u8>, i: int) -> Option<ValueFault>
    decreases bytes.len() - i,
{
    if i >= bytes.len() {
        None
    } else if fault_at(bytes, i) is Some {
        fault_at(bytes, i)
    } else {
        fault_from(bytes, i + 1)
    }
}

/// The first thing that is wrong with a text.
pub open spec fn value_fault(bytes: Seq<u8>) -> Option<ValueFault> {
    if bytes.len() == 0 {
        Some(ValueFault::Empty)
    } else {
        fault_from(bytes, 0)
    }
}

/// Reads a decimal number, in which underscores may stand between digits.
pub fn decimal_usize(value: &str) -> (parsed: Result<usize, ValueFault>)
    ensures
        match value_fault(value.spec_bytes()) {
            Some(fault) => parsed == Err::<usize, ValueFault>(fault),
            None => {
                &&& spelled(value.spec_bytes()) <= usize::MAX
                &&& parsed == Ok::<usize, ValueFault>(spelled(value.spec_bytes()) as usize)
            },
        },
{
    let bytes: &[u8] = value.as_bytes();
    if bytes.len() == 0 {
        return Err(ValueFault::Empty);
    }
    let mut parsed: usize = 0;
    let mut index: usize = 0;
    let mut previous_was_separator: bool = true;
    assert(bytes@.subrange(0, 0) =~= Seq::<u8>::empty());
    while index < bytes.len()
        invariant
            index <= bytes@.len(),
            bytes@.len() > 0,
            bytes@ == value.spec_bytes(),
            value_fault(bytes@) == fault_from(bytes@, index as int),
            parsed == spelled(bytes@.subrange(0, index as int)),
            previous_was_separator == (index == 0 || bytes@[index - 1] == 0x5F),
        decreases bytes@.len() - index,
    {
        let byte: u8 = bytes[index];
        let ghost prefix = bytes@.subrange(0, index + 1);
        assert(prefix.drop_last() =~= bytes@.subrange(0, index as int));
        assert(prefix.last() == byte);
        if byte == 0x5F {
            if previous_was_separator || index + 1 == bytes.len() {
                return Err(ValueFault::InvalidSeparator);
            }
            previous_was_separator = true;
        } else if byte < 0x30 || byte > 0x39 {
            return Err(ValueFault::NotDecimal);
        } else {
            let digit: usize = (byte - 0x30) as usize;
            if parsed > (usize::MAX - digit) / 10 {
                return Err(ValueFault::Overflow);
            }
            parsed = parsed * 10 + digit;
            previous_was_separator = false;
        }
        index = index + 1;
    }
    assert(bytes@.subrange(0, bytes@.len() as int) =~= bytes@);
    Ok(parsed)
}

/// The selected number, or the default where none is selected.
pub fn usize_from_env(value: Option<&str>, default: usize) -> (selected: usize)
    requires
        value matches Some(value) ==> value_fault(value.spec_bytes()) is None,
    ensures
        selected == match value {
            Some(value) => spelled(value.spec_bytes()) as int,
            None => default as int,
        },
{
    match value {
        Some(value) => match decimal_usize(value) {
            Ok(selected) => selected,
            Err(_) => vstd::pervasive::unreached(),
        },
        None => default,
    }
}

/// A value that is written in digits is read as the number that they spell.
pub proof fn law_value_is_read_as_written(value: nat)
    requires
        value <= usize::MAX,
    ensures
        value_fault(ascii(digits(value))) is None,
        spelled(ascii(digits(value))) == value,
{
    lemma_digits(value);
    let bytes = ascii(digits(value));
    assert forall|i: int| 0 <= i < bytes.len() implies #[trigger] fault_at(bytes, i) is None by {
        assert(is_digit(bytes[i]));
        lemma_spelled_grows(bytes, i + 1);
    }
    lemma_no_fault(bytes, 0);
}

proof fn lemma_no_fault(bytes: Seq<u8>, from: int)
    requires
        0 <= from,
        forall|i: int| from <= i < bytes.len() ==> #[trigger] fault_at(bytes, i) is None,
    ensures
        fault_from(bytes, from) is None,
    decreases bytes.len() - from,
{
    if from < bytes.len() {
        assert(fault_at(bytes, from) is None);
        lemma_no_fault(bytes, from + 1);
    }
}

proof fn lemma_fault(bytes: Seq<u8>, from: int, i: int)
    requires
        0 <= from <= i < bytes.len(),
        fault_at(bytes, i) is Some,
    ensures
        fault_from(bytes, from) is Some,
    decreases bytes.len() - from,
{
    if from < i && fault_at(bytes, from) is None {
        lemma_fault(bytes, from + 1, i);
    }
}

/// A value is refused where it is empty, where a byte is neither a digit nor an underscore,
/// and where an underscore does not stand between two digits.
pub proof fn law_value_is_refused_where_it_is_no_number(bytes: Seq<u8>, i: int)
    ensures
        bytes.len() == 0 ==> value_fault(bytes) == Some(ValueFault::Empty),
        0 <= i < bytes.len() && bytes[i] != 0x5F && !(0x30 <= bytes[i] <= 0x39) ==> value_fault(
            bytes,
        ) is Some,
        0 <= i < bytes.len() && bytes[i] == 0x5F && (i == 0 || i == bytes.len() - 1 || bytes[i
            - 1] == 0x5F) ==> value_fault(bytes) is Some,
        0 <= i < bytes.len() && spelled(bytes.subrange(0, i + 1)) > usize::MAX && bytes[i] != 0x5F
            ==> value_fault(bytes) is Some,
{
    if 0 <= i < bytes.len() && fault_at(bytes, i) is Some {
        lemma_fault(bytes, 0, i);
    }
}

/// Underscores do not count: a value means the same with one more of them.
pub proof fn law_underscores_do_not_count(before: Seq<u8>, behind: Seq<u8>)
    ensures
        spelled(before.push(0x5F) + behind) == spelled(before + behind),
    decreases behind.len(),
{
    let one = before.push(0x5F) + behind;
    let other = before + behind;
    if behind.len() == 0 {
        assert(one =~= before.push(0x5F));
        assert(one.drop_last() =~= before);
        assert(other =~= before);
    } else {
        law_underscores_do_not_count(before, behind.drop_last());
        assert(one.drop_last() =~= before.push(0x5F) + behind.drop_last());
        assert(other.drop_last() =~= before + behind.drop_last());
    }
}

} // verus!
