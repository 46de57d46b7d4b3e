//! Texts and their bytes.
use vstd::prelude::*;
use vstd::string::*;
use vstd::utf8::*;

verus! {

/// The byte range `start..end` cuts whole characters out of a text.
pub open spec fn is_text_range(text: Seq<char>, start: int, end: int) -> bool {
    &&& start <= end
    &&& is_char_boundary(encode_utf8(text), start)
    &&& is_char_boundary(encode_utf8(text), end)
}

/// The bytes `start..end` of a text.
pub open spec fn bytes_between(text: Seq<char>, start: int, end: int) -> Seq<u8> {
    encode_utf8(text).subrange(start, end)
}

/// The characters whose bytes stand at `start..end` in a text.
pub open spec fn text_between(text: Seq<char>, start: int, end: int) -> Seq<char> {
    decode_utf8(bytes_between(text, start, end))
}

/// A text stands in another, from the byte `pos` on.
pub open spec fn occurs_at(text: Seq<char>, special: Seq<char>, pos: int) -> bool {
    let end = pos + encode_utf8(special).len();
    is_text_range(text, pos, end) && text_between(text, pos, end) == special
}

/// The texts of a list, each by its characters.
pub open spec fn texts(list: Seq<&str>) -> Seq<Seq<char>> {
    Seq::new(list.len(), |i: int| list[i]@)
}

/// Two texts with the same bytes are the same.
pub proof fn lemma_same_bytes(a: Seq<char>, b: Seq<char>)
    requires
        encode_utf8(a) == encode_utf8(b),
    ensures
        a == b,
{
    encode_utf8_decode_utf8(a);
    encode_utf8_decode_utf8(b);
}

/// A position of a byte string of whole characters stays the start of a character when
/// the characters before an earlier one are cut off.
pub proof fn lemma_boundary_in_rest(bytes: Seq<u8>, start: int, end: int)
    requires
        valid_utf8(bytes),
        is_char_boundary(bytes, start),
        is_char_boundary(bytes, end),
        0 <= start <= end <= bytes.len(),
        valid_utf8(bytes.subrange(start, bytes.len() as int)),
    ensures
        is_char_boundary(bytes.subrange(start, bytes.len() as int), end - start),
{
    let rest = bytes.subrange(start, bytes.len() as int);
    is_char_boundary_start_end_of_seq(rest);
    if end < bytes.len() {
        is_char_boundary_iff_not_is_continuation_byte(bytes, end);
        is_char_boundary_iff_not_is_continuation_byte(rest, end - start);
        assert(rest[end - start] == bytes[end]);
    }
}

/// A start of a character lies within the byte string.
pub proof fn lemma_boundary_in_range(bytes: Seq<u8>, index: int)
    requires
        is_char_boundary(bytes, index),
        valid_utf8(bytes),
    ensures
        0 <= index <= bytes.len(),
{
}

/// A character that Unicode counts as white space.
pub open spec fn is_white_space(c: char) -> bool {
    let code = c as u32;
    ||| 0x9 <= code <= 0xd
    ||| code == 0x20
    ||| code == 0x85
    ||| code == 0xa0
    ||| code == 0x1680
    ||| 0x2000 <= code <= 0x200a
    ||| code == 0x2028
    ||| code == 0x2029
    ||| code == 0x202f
    ||| code == 0x205f
    ||| code == 0x3000
}

/// Whether Unicode counts a character as white space.
pub fn white_space(c: char) -> (is: bool)
    ensures
        is == is_white_space(c),
{
    let code = c as u32;
    0x9 <= code && code <= 0xd || code == 0x20 || code == 0x85 || code == 0xa0 || code == 0x1680
        || 0x2000 <= code && code <= 0x200a || code == 0x2028 || code == 0x2029 || code == 0x202f
        || code == 0x205f || code == 0x3000
}

/// Bytes end with those of one character at most.
pub proof fn lemma_last_char_unique(bytes: Seq<u8>, a: char, b: char)
    requires
        encode_utf8(seq![a]).is_suffix_of(bytes),
        encode_utf8(seq![b]).is_suffix_of(bytes),
    ensures
        a == b,
{
    lemma_longer_char(bytes, a, b);
    lemma_longer_char(bytes, b, a);
    lemma_same_bytes(seq![a], seq![b]);
    assert(seq![a][0] == seq![b][0]);
}

/// Of two characters that bytes end with, none has more bytes.
proof fn lemma_longer_char(bytes: Seq<u8>, long: char, short: char)
    requires
        encode_utf8(seq![long]).is_suffix_of(bytes),
        encode_utf8(seq![short]).is_suffix_of(bytes),
    ensures
        encode_utf8(seq![long]).len() <= encode_utf8(seq![short]).len(),
        encode_utf8(seq![long]).len() == encode_utf8(seq![short]).len() ==> encode_utf8(seq![long])
            == encode_utf8(seq![short]),
{
    let l = encode_utf8(seq![long]);
    let s = encode_utf8(seq![short]);
    encode_utf8_valid_utf8(seq![long]);
    encode_utf8_valid_utf8(seq![short]);
    lemma_one_char_bytes(long);
    lemma_one_char_bytes(short);
    if l.len() > s.len() {
        let at = l.len() - s.len();
        assert(l[at] == s[0]);
        is_char_boundary_start_end_of_seq(s);
        is_char_boundary_iff_not_is_continuation_byte(s, 0);
        is_char_boundary_iff_not_is_continuation_byte(l, at);
    } else if l.len() == s.len() {
        assert(l =~= s);
    }
}

/// The bytes of one character: there is one, and no other character starts among them.
proof fn lemma_one_char_bytes(c: char)
    ensures
        encode_utf8(seq![c]).len() > 0,
        forall|i: int|
            0 < i < encode_utf8(seq![c]).len() ==> !#[trigger] is_char_boundary(
                encode_utf8(seq![c]),
                i,
            ),
{
    let bytes = encode_utf8(seq![c]);
    encode_utf8_valid_utf8(seq![c]);
    encode_utf8_first_scalar(seq![c]);
    assert(seq![c].drop_first() =~= Seq::<char>::empty());
    reveal_with_fuel(encode_utf8, 2);
    assert(bytes =~= encode_scalar(seq![c][0] as u32));
    let rest = pop_first_scalar(bytes);
    assert(rest =~= Seq::<u8>::empty());
    assert forall|i: int| 0 < i < bytes.len() implies !#[trigger] is_char_boundary(bytes, i) by {
        assert(!is_char_boundary(rest, i - length_of_first_scalar(bytes)));
    }
}

/// The character of a decimal digit.
pub open spec fn digit(d: nat) -> char {
    (('0' as nat) + d) as char
}

/// A number in decimal digits.
pub open spec fn decimal(n: nat) -> Seq<char>
    decreases n,
{
    if n < 10 {
        seq![digit(n)]
    } else {
        decimal(n / 10).push(digit(n % 10))
    }
}

/// A decimal digit as a text of one character.
fn digit_text(d: u64) -> (text: &'static str)
    requires
        d < 10,
    ensures
        text@ == seq![digit(d as nat)],
{
    proof {
        reveal_strlit("0");
        reveal_strlit("1");
        reveal_strlit("2");
        reveal_strlit("3");
        reveal_strlit("4");
        reveal_strlit("5");
        reveal_strlit("6");
        reveal_strlit("7");
        reveal_strlit("8");
        reveal_strlit("9");
    }
    let text = match d {
        0 => "0",
        1 => "1",
        2 => "2",
        3 => "3",
        4 => "4",
        5 => "5",
        6 => "6",
        7 => "7",
        8 => "8",
        _ => "9",
    };
    assert(text@ =~= seq![digit(d as nat)]);
    text
}

/// Appends a number in decimal digits to `out`.
pub(crate) fn push_decimal(out: &mut String, n: u64)
    ensures
        final(out)@ == old(out)@ + decimal(n as nat),
    decreases n,
{
    if n >= 10 {
        push_decimal(out, n / 10);
    }
    out.append(digit_text(n % 10));
    assert(out@ =~= old(out)@ + decimal(n as nat));
}

/// The characters of `text` whose bytes stand at `start..end`.
pub(crate) fn substring<'a>(text: &'a str, start: usize, end: usize) -> (part: &'a str)
    requires
        is_text_range(text@, start as int, end as int),
    ensures
        part@ == text_between(text@, start as int, end as int),
        encode_utf8(part@) == bytes_between(text@, start as int, end as int),
{
    let ghost bytes = encode_utf8(text@);
    proof {
        encode_utf8_valid_utf8(text@);
        lemma_boundary_in_range(bytes, start as int);
        lemma_boundary_in_range(bytes, end as int);
    }
    let (_, rest) = text.split_at(start);
    proof {
        encode_utf8_valid_utf8(rest@);
        lemma_boundary_in_rest(bytes, start as int, end as int);
    }
    let (part, _) = rest.split_at(end - start);
    proof {
        assert(encode_utf8(part@) =~= bytes.subrange(start as int, end as int));
        encode_utf8_decode_utf8(part@);
    }
    part
}

/// Whether two byte strings are the same.
pub(crate) fn same_bytes(a: &[u8], b: &[u8]) -> (same: bool)
    ensures
        same == (a@ == b@),
{
    if a.len() != b.len() {
        return false;
    }
    let mut i: usize = 0;
    while i < a.len()
        invariant
            a@.len() == b@.len(),
            i <= a@.len(),
            forall|k: int| 0 <= k < i ==> a@[k] == b@[k],
        decreases a@.len() - i,
    {
        if a[i] != b[i] {
            return false;
        }
        i += 1;
    }
    assert(a@ =~= b@);
    true
}

/// Whether two texts are the same.
pub(crate) fn same_text(a: &str, b: &str) -> (same: bool)
    ensures
        same == (a@ == b@),
{
    let same = same_bytes(a.as_bytes(), b.as_bytes());
    proof {
        if same {
            lemma_same_bytes(a@, b@);
        }
    }
    same
}

} // verus!
