//! What is taken from the standard library and from `bstr` without proof.
use vstd::prelude::*;
use vstd::utf8::*;

use crate::order::{byte_strings, is_sorted};

verus! {

/// What the error of `str::from_utf8` says of bytes that are not those of a text.
pub uninterp spec fn utf8_error_text(bytes: Seq<u8>) -> Seq<char>;

/// The text with the given bytes, from `str::from_utf8`. Where they are not those of a
/// text, the error gives the length of the longest prefix that is (`valid_up_to`) and what
/// it prints.
#[verifier::external_body]
pub(crate) fn text_of_bytes(bytes: &[u8]) -> (text: Result<&str, (usize, String)>)
    ensures
        match text {
            Ok(text) => valid_utf8(bytes@) && encode_utf8(text@) == bytes@,
            Err((valid_up_to, message)) => {
                &&& !valid_utf8(bytes@)
                &&& valid_up_to <= bytes@.len()
                &&& valid_utf8(bytes@.take(valid_up_to as int))
                &&& forall|len: int|
                    valid_up_to < len <= bytes@.len() ==> !valid_utf8(#[trigger] bytes@.take(len))
                &&& message@ == utf8_error_text(bytes@)
            },
        },
{
    std::str::from_utf8(bytes).map_err(|error| (error.valid_up_to(), error.to_string()))
}

/// The last character of some bytes with the number of its bytes, from
/// `bstr::decode_last_utf8`: `None` where the bytes do not end with those of a character.
#[verifier::external_body]
pub(crate) fn last_char_of_bytes(bytes: &[u8]) -> (last: Option<(char, usize)>)
    ensures
        match last {
            Some((c, len)) => encode_utf8(seq![c]).is_suffix_of(bytes@) && len == encode_utf8(
                seq![c],
            ).len(),
            None => forall|c: char| !(#[trigger] encode_utf8(seq![c])).is_suffix_of(bytes@),
        },
{
    let (c, len) = bstr::decode_last_utf8(bytes);
    c.map(|c| (c, len))
}

/// The character with a number, from `char::from_u32`: `None` where no character has it.
#[verifier::external_body]
pub(crate) fn char_of_code(code: u32) -> (c: Option<char>)
    ensures
        match c {
            Some(c) => c as u32 == code,
            None => !is_scalar(code),
        },
{
    char::from_u32(code)
}

/// A character as `Debug` prints it.
pub uninterp spec fn char_debug(c: char) -> Seq<char>;

/// A text as `Debug` prints it.
pub uninterp spec fn str_debug(text: Seq<char>) -> Seq<char>;

/// Prints a character with `Debug`: in single quotes, with escapes.
#[verifier::external_body]
pub(crate) fn debug_char(c: char) -> (text: String)
    ensures
        text@ == char_debug(c),
{
    format!("{:?}", c)
}

/// Prints a text with `Debug`: in double quotes, with escapes.
#[verifier::external_body]
pub(crate) fn debug_str(text: &str) -> (shown: String)
    ensures
        shown@ == str_debug(text@),
{
    format!("{:?}", text)
}

/// Sorts a list of byte strings, with `slice::sort`: the same byte strings as often as
/// before, now in the order of a dictionary.
#[verifier::external_body]
pub(crate) fn sort_byte_strings(list: &mut Vec<Vec<u8>>)
    ensures
        is_sorted(byte_strings(final(list)@)),
        byte_strings(final(list)@).to_multiset() == byte_strings(old(list)@).to_multiset(),
{
    list.sort();
}

} // verus!
