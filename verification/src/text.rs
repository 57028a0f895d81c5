//! Texts and the bytes that spell them.
use vstd::prelude::*;
use vstd::string::*;
use vstd::utf8::*;

verus! {

/// The text that `String::from_utf8_lossy` makes of bytes that are not UTF-8.
pub uninterp spec fn lossy(bytes: Seq<u8>) -> Seq<char>;

/// The text of bytes: the one that they spell, or what stands for them where
/// they are not UTF-8.
pub open spec fn readable(bytes: Seq<u8>) -> Seq<char> {
    if valid_utf8(bytes) {
        decode_utf8(bytes)
    } else {
        lossy(bytes)
    }
}

/// `String::from_utf8_lossy` of std: a text of these bytes, in which what is not
/// UTF-8 is replaced. Bytes that are UTF-8 are the bytes of the text. Which
/// characters stand for other bytes is left to the name.
#[verifier::external_body]
pub(crate) fn text_lossy(bytes: &[u8]) -> (text: String)
    ensures
        valid_utf8(bytes@) ==> text@ == decode_utf8(bytes@),
        !valid_utf8(bytes@) ==> text@ == lossy(bytes@),
{
    String::from_utf8_lossy(bytes).into_owned()
}

/// `String::from_utf8` of std: a text of these bytes, where they are UTF-8.
#[verifier::external_body]
pub(crate) fn text_of(bytes: Vec<u8>) -> (text: Option<String>)
    ensures
        text is Some == valid_utf8(bytes@),
        text matches Some(text) ==> encode_utf8(text@) == bytes@,
{
    String::from_utf8(bytes).ok()
}

/// True when a character is white space: it has the property `White_Space`.
pub open spec fn is_white(c: char) -> bool {
    let code = c as u32;
    ||| 0x09 <= code <= 0x0D
    ||| code == 0x20
    ||| code == 0x85
    ||| code == 0xA0
    ||| code == 0x1680
    ||| 0x2000 <= code <= 0x200A
    ||| code == 0x2028
    ||| code == 0x2029
    ||| code == 0x202F
    ||| code == 0x205F
    ||| code == 0x3000
}

/// True when a text is nothing but white space.
pub open spec fn blank(chars: Seq<char>) -> bool {
    forall|i: int| 0 <= i < chars.len() ==> is_white(#[trigger] chars[i])
}

/// True when a text is nothing but white space.
pub fn is_blank(text: &str) -> (result: bool)
    ensures
        result == blank(text@),
{
    let len: usize = text.unicode_len();
    let mut index: usize = 0;
    while index < len
        invariant
            index <= len,
            len == text@.len(),
            blank(text@.subrange(0, index as int)),
        decreases len - index,
    {
        let c: char = text.get_char(index);
        let code: u32 = c as u32;
        let white: bool = (0x09 <= code && code <= 0x0D) || code == 0x20 || code == 0x85 || code
            == 0xA0 || code == 0x1680 || (0x2000 <= code && code <= 0x200A) || code == 0x2028
            || code == 0x2029 || code == 0x202F || code == 0x205F || code == 0x3000;
        assert(white == is_white(text@[index as int]));
        if !white {
            return false;
        }
        index = index + 1;
        assert forall|i: int| 0 <= i < index implies is_white(
            #[trigger] text@.subrange(0, index as int)[i],
        ) by {
            if i < index - 1 {
                assert(is_white(text@.subrange(0, index - 1)[i]));
            }
        }
    }
    assert(text@.subrange(0, len as int) =~= text@);
    true
}

/// The form in which `Debug` of std shows a text.
pub uninterp spec fn quoted(text: Seq<char>) -> Seq<char>;

/// `Debug` of `str` of std: the text in quotes, with escapes. Which characters
/// are escaped is left to the name.
#[verifier::external_body]
pub(crate) fn quote(text: &str) -> (shown: String)
    ensures
        shown@ == quoted(text@),
{
    format!("{text:?}")
}

/// A text is blank exactly where it has no character that can be seen: none at all, or
/// only blanks, tabs, line ends and the like. Letters, digits and signs can be seen.
pub proof fn law_blank_text_shows_nothing(text: Seq<char>, i: int)
    ensures
        text.len() == 0 ==> blank(text),
        0 <= i < text.len() && '!' <= text[i] <= '~' ==> !blank(text),
        (forall|k: int| 0 <= k < text.len() ==> text[k] == ' ' || text[k] == '\t' || text[k]
            == '\n' || text[k] == '\r') ==> blank(text),
{
}

} // verus!
