//! Decimal numbers, read and written.
use vstd::prelude::*;
use vstd::string::*;
use vstd::utf8::*;

verus! {

/// True when a byte is a decimal digit.
pub open spec fn is_digit(byte: u8) -> bool {
    0x30 <= byte <= 0x39
}

/// True when every byte is a decimal digit.
pub open spec fn all_digits(bytes: Seq<u8>) -> bool {
    forall|i: int| 0 <= i < bytes.len() ==> is_digit(#[trigger] bytes[i])
}

/// The number that digits spell, the most significant one first. Underscores
/// between them mean nothing.
pub open spec fn spelled(bytes: Seq<u8>) -> nat
    decreases bytes.len(),
{
    if bytes.len() == 0 {
        0
    } else if bytes.last() == 0x5F {
        spelled(bytes.drop_last())
    } else {
        (spelled(bytes.drop_last()) * 10 + (bytes.last() - 0x30)) as nat
    }
}

/// What follows one leading plus sign.
pub open spec fn unsigned_part(bytes: Seq<u8>) -> Seq<u8> {
    if bytes.len() > 0 && bytes[0] == 0x2B {
        bytes.subrange(1, bytes.len() as int)
    } else {
        bytes
    }
}

/// The unsigned number that a text is: digits, behind one plus sign or none.
pub open spec fn number(bytes: Seq<u8>) -> Option<nat> {
    let digits = unsigned_part(bytes);
    if digits.len() > 0 && all_digits(digits) {
        Some(spelled(digits))
    } else {
        None
    }
}

/// A longer text spells a number that is no smaller.
pub proof fn lemma_spelled_grows(bytes: Seq<u8>, len: int)
    requires
        all_digits(bytes),
        0 <= len <= bytes.len(),
    ensures
        spelled(bytes.subrange(0, len)) <= spelled(bytes),
    decreases bytes.len() - len,
{
    if len == bytes.len() {
        assert(bytes.subrange(0, len) =~= bytes);
    } else {
        lemma_spelled_grows(bytes, len + 1);
        assert(bytes.subrange(0, len + 1).drop_last() =~= bytes.subrange(0, len));
        assert(is_digit(bytes[len]));
    }
}

/// Reads an unsigned number that is not over `max`.
pub fn parse_number(bytes: &[u8], max: u64) -> (parsed: Option<u64>)
    ensures
        match number(bytes@) {
            Some(value) => if value <= max {
                parsed == Some(value as u64)
            } else {
                parsed is None
            },
            None => parsed is None,
        },
{
    let start: usize = if bytes.len() > 0 && bytes[0] == 0x2B {
        1
    } else {
        0
    };
    let ghost digits = unsigned_part(bytes@);
    if start == bytes.len() {
        return None;
    }
    let mut value: u64 = 0;
    let mut over: bool = false;
    let mut index: usize = start;
    assert(digits.subrange(0, 0) =~= Seq::<u8>::empty());
    while index < bytes.len()
        invariant
            start <= index <= bytes@.len(),
            start <= 1,
            digits == unsigned_part(bytes@),
            digits.len() == bytes@.len() - start,
            forall|i: int| 0 <= i < digits.len() ==> #[trigger] digits[i] == bytes@[i + start],
            all_digits(digits.subrange(0, index - start)),
            !over ==> value == spelled(digits.subrange(0, index - start)) && value <= max,
            over ==> spelled(digits.subrange(0, index - start)) > max,
        decreases bytes@.len() - index,
    {
        let byte: u8 = bytes[index];
        let ghost prefix = digits.subrange(0, index - start + 1);
        assert(byte == digits[index - start]);
        if byte < 0x30 || byte > 0x39 {
            assert(!all_digits(digits)) by {
                assert(!is_digit(digits[index - start]));
            }
            return None;
        }
        assert(prefix.drop_last() =~= digits.subrange(0, index - start));
        assert(prefix.last() == byte);
        let digit: u64 = (byte - 0x30) as u64;
        if !over {
            if value > (u64::MAX - digit) / 10 || value * 10 + digit > max {
                over = true;
            } else {
                value = value * 10 + digit;
            }
        }
        index = index + 1;
    }
    assert(digits.subrange(0, digits.len() as int) =~= digits);
    if over {
        None
    } else {
        Some(value)
    }
}

/// The character of a digit.
pub open spec fn digit_char(digit: int) -> char {
    (0x30 + digit) as char
}

/// The digits of a number, without leading zeros.
pub open spec fn digits(value: nat) -> Seq<char>
    decreases value,
{
    if value < 10 {
        seq![digit_char(value as int)]
    } else {
        digits(value / 10).push(digit_char((value % 10) as int))
    }
}

/// Characters of one byte each, as bytes.
pub open spec fn ascii(chars: Seq<char>) -> Seq<u8> {
    chars.map_values(|c: char| c as u8)
}

/// A text of ASCII characters has one byte for each.
pub proof fn lemma_ascii(chars: Seq<char>)
    requires
        is_ascii_chars(chars),
    ensures
        encode_utf8(chars) == ascii(chars),
{
    is_ascii_chars_encode_utf8(chars);
    assert(encode_utf8(chars) =~= ascii(chars));
}

/// The digits of a number spell it.
pub proof fn lemma_digits(value: nat)
    ensures
        digits(value).len() > 0,
        is_ascii_chars(digits(value)),
        all_digits(ascii(digits(value))),
        spelled(ascii(digits(value))) == value,
    decreases value,
{
    let bytes = ascii(digits(value));
    assert(bytes.last() == 0x30 + value % 10);
    if value < 10 {
        assert(bytes.drop_last() =~= Seq::<u8>::empty());
        assert(spelled(bytes.drop_last()) == 0);
    } else {
        lemma_digits(value / 10);
        let shorter = ascii(digits(value / 10));
        assert(bytes.drop_last() =~= shorter);
        assert forall|i: int| 0 <= i < bytes.len() implies is_digit(#[trigger] bytes[i]) by {
            if i < shorter.len() {
                assert(is_digit(shorter[i]));
            }
        }
    }
}

/// The text of one digit.
fn digit_text(digit: u64) -> (text: &'static str)
    requires
        digit < 10,
    ensures
        text@ == seq![digit_char(digit as int)],
{
    proof {
        reveal_strlit("0");
        reveal_strlit("1");
        reveal_strlit("2");
        reveal_strlit("3");
        reveal_strlit("4");
        reveal_strlit("5");
        reveal_strlit("6");
        reveal_strlit("7");
        reveal_strlit("8");
        reveal_strlit("9");
    }
    let text: &'static str = match digit {
        0 => "0",
        1 => "1",
        2 => "2",
        3 => "3",
        4 => "4",
        5 => "5",
        6 => "6",
        7 => "7",
        8 => "8",
        _ => "9",
    };
    assert(text@ =~= seq![digit_char(digit as int)]);
    text
}

/// Writes a number behind a text.
pub fn push_number(text: &mut String, value: u64)
    ensures
        final(text)@ == old(text)@ + digits(value as nat),
    decreases value,
{
    if value < 10 {
        text.append(digit_text(value));
    } else {
        push_number(text, value / 10);
        text.append(digit_text(value % 10));
        assert(text@ =~= old(text)@ + digits(value as nat));
    }
}

/// The digits of a number that may be negative.
pub open spec fn signed(value: int) -> Seq<char> {
    if value < 0 {
        "-"@ + digits((-value) as nat)
    } else {
        digits(value as nat)
    }
}

/// Writes a number that may be negative behind a text.
pub fn push_signed(text: &mut String, value: i64)
    ensures
        final(text)@ == old(text)@ + signed(value as int),
{
    if value < 0 {
        text.append("-");
        if value == i64::MIN {
            push_number(text, 0x8000_0000_0000_0000);
        } else {
            push_number(text, (-value) as u64);
        }
        assert(text@ =~= old(text)@ + signed(value as int));
    } else {
        push_number(text, value as u64);
    }
}

/// The text of a hexadecimal digit.
pub open spec fn hex_digit(digit: int) -> Seq<char> {
    if digit < 10 {
        digits(digit as nat)
    } else if digit == 10 {
        "A"@
    } else if digit == 11 {
        "B"@
    } else if digit == 12 {
        "C"@
    } else if digit == 13 {
        "D"@
    } else if digit == 14 {
        "E"@
    } else {
        "F"@
    }
}

/// A number as `count` hexadecimal digits.
pub open spec fn hex_digits(value: nat, count: nat) -> Seq<char>
    decreases count,
{
    if count == 0 {
        Seq::empty()
    } else {
        hex_digits(value / 16, (count - 1) as nat) + hex_digit((value % 16) as int)
    }
}

/// A word as eight hexadecimal digits.
pub open spec fn hex_text(value: u32) -> Seq<char> {
    "0x"@ + hex_digits(value as nat, 8)
}

fn push_hex_digits(text: &mut String, value: u32, count: u32)
    ensures
        final(text)@ == old(text)@ + hex_digits(value as nat, count as nat),
    decreases count,
{
    if count > 0 {
        push_hex_digits(text, value / 16, count - 1);
        let digit: u32 = value % 16;
        if digit < 10 {
            push_number(text, digit as u64);
        } else {
            text.append(
                match digit {
                    10 => "A",
                    11 => "B",
                    12 => "C",
                    13 => "D",
                    14 => "E",
                    _ => "F",
                },
            );
        }
        assert(text@ =~= old(text)@ + hex_digits(value as nat, count as nat));
    } else {
        assert(text@ =~= old(text)@ + hex_digits(value as nat, 0));
    }
}

/// Writes a word as eight hexadecimal digits behind a text.
pub fn push_hex(text: &mut String, value: u32)
    ensures
        final(text)@ == old(text)@ + hex_text(value),
{
    text.append("0x");
    push_hex_digits(text, value, 8);
    assert(text@ =~= old(text)@ + hex_text(value));
}

/// The digits of a number spell it, in digits alone, and without a zero in front.
pub proof fn law_digits_spell_the_number(value: nat)
    ensures
        number(ascii(digits(value))) == Some(value),
        value > 0 ==> digits(value)[0] != '0',
        value < 10 ==> digits(value).len() == 1,
        digits(10 * value + 10).len() == digits(value + 1).len() + 1,
    decreases value,
{
    lemma_digits(value);
    let bytes = ascii(digits(value));
    assert(is_digit(bytes[0]));
    if value >= 10 {
        law_digits_spell_the_number(value / 10);
    }
    assert((10 * value + 10) / 10 == value + 1);
}

/// A text is a number exactly where it has digits and nothing but digits, behind one plus
/// sign or none; each digit counts ten times as much as the one behind it.
pub proof fn law_numbers_are_digits(bytes: Seq<u8>, digit: u8)
    ensures
        number(Seq::empty()) is None,
        (exists|i: int|
            0 < i < bytes.len() && !(0x30 <= #[trigger] bytes[i] <= 0x39)) ==> number(bytes)
            is None,
        bytes.len() > 0 && !(0x30 <= bytes[0] <= 0x39) && bytes[0] != 0x2B ==> number(bytes)
            is None,
        number(bytes) is Some && 0x30 <= digit <= 0x39 ==> number(bytes.push(digit)) == Some(
            (10 * number(bytes)->0 + (digit - 0x30)) as nat,
        ),
{
    if exists|i: int| 0 < i < bytes.len() && !(0x30 <= #[trigger] bytes[i] <= 0x39) {
        let i = choose|i: int| 0 < i < bytes.len() && !(0x30 <= #[trigger] bytes[i] <= 0x39);
        let part = unsigned_part(bytes);
        if all_digits(part) {
            let k = if part.len() < bytes.len() {
                i - 1
            } else {
                i
            };
            assert(is_digit(part[k]));
        }
    }
    if number(bytes) is Some && 0x30 <= digit <= 0x39 {
        let part = unsigned_part(bytes);
        let longer = unsigned_part(bytes.push(digit));
        assert(longer =~= part.push(digit));
        assert(longer.drop_last() =~= part);
        assert forall|i: int| 0 <= i < longer.len() implies is_digit(#[trigger] longer[i]) by {
            if i < part.len() {
                assert(is_digit(part[i]));
            }
        }
    }
    if bytes.len() > 0 && !(0x30 <= bytes[0] <= 0x39) && bytes[0] != 0x2B && all_digits(bytes) {
        assert(is_digit(bytes[0]));
    }
}

} // verus!
