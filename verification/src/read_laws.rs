//! What holds of an `encoder.json` that is read without a fault: it is written as an object
//! is, and says what was read.
use vstd::prelude::*;
use vstd::utf8::*;

use crate::bpe::Rank;
use crate::data_gym::{Fault, mapped};
use crate::json::{
    behind_byte, behind_digits, behind_second_escape, behind_space, entry_at, first_entry,
    hex_digit, hex_number, is_digit, is_json_space, listing, listing_from, next_entry, number,
    object_end, rank_at, short_escape, string_at, string_bytes, string_char,
};
use crate::json_laws::{at, lemma_at};
use crate::split::lemma_prefix_is_boundary;
use crate::text::{decimal, digit};
use crate::written_laws::{
    Written, all_blank, entries_text, entry_text, is_blank, is_hex, is_letter_of, is_unit,
    is_written, writes_char,
};

verus! {

/// The byte at which the characters of a text end.
proof fn lemma_end(text: Seq<char>, i: int)
    requires
        0 <= i <= text.len(),
    ensures
        at(text, text.len() as int) == encode_utf8(text).len(),
        at(text, i) <= encode_utf8(text).len(),
        i < text.len() <==> at(text, i) < encode_utf8(text).len(),
{
    assert(text.take(text.len() as int) =~= text);
    lemma_prefix_is_boundary(text, i);
    if i < text.len() {
        lemma_at(text, i);
    }
}

/// A byte of ASCII in a text is the character.
proof fn lemma_ascii(text: Seq<char>, i: int, byte: u8)
    requires
        0 <= i <= text.len(),
        at(text, i) < encode_utf8(text).len(),
        encode_utf8(text)[at(text, i)] == byte,
        byte < 0x80,
    ensures
        i < text.len(),
        text[i] as int == byte,
        at(text, i + 1) == at(text, i) + 1,
{
    lemma_end(text, i);
    lemma_at(text, i);
    let c = text[i];
    char_u32_cast(c, c as u32);
    if (c as u32) < 0x80 {
        assert(c as u32 == c as u8);
    }
}

/// What is skipped is white space.
proof fn lemma_read_blank(text: Seq<char>, i: int) -> (j: int)
    requires
        0 <= i <= text.len(),
    ensures
        i <= j <= text.len(),
        behind_space(encode_utf8(text), at(text, i)) == at(text, j),
        all_blank(text.subrange(i, j)),
    decreases text.len() - i,
{
    let b = encode_utf8(text);
    lemma_end(text, i);
    if at(text, i) < b.len() && is_json_space(b[at(text, i)]) {
        lemma_ascii(text, i, b[at(text, i)]);
        let j = lemma_read_blank(text, i + 1);
        let rest = text.subrange(i + 1, j);
        let all = text.subrange(i, j);
        assert(is_blank(text[i]));
        assert forall|k: int| 0 <= k < all.len() implies is_blank(#[trigger] all[k]) by {
            if k > 0 {
                assert(all[k] == rest[k - 1]);
            }
        }
        j
    } else {
        i
    }
}

/// The digits that are read as a unit are hexadecimal ones.
proof fn lemma_read_unit(text: Seq<char>, i: int, unit: int, end: int)
    requires
        0 <= i,
        i + 2 <= text.len(),
        text[i] == '\\',
        text[i + 1] == 'u',
        hex_number(encode_utf8(text), at(text, i + 2), 4, 0) == Ok::<(int, int), Fault>(
            (unit, end),
        ),
    ensures
        i + 6 <= text.len(),
        end == at(text, i + 6),
        is_unit(text.subrange(i, i + 6), unit),
{
    let b = encode_utf8(text);
    reveal_with_fuel(hex_number, 5);
    let start = at(text, i + 2);
    lemma_end(text, i + 2);
    let d1 = hex_digit(b[start])->0;
    lemma_ascii(text, i + 2, b[start]);
    let d2 = hex_digit(b[start + 1])->0;
    lemma_ascii(text, i + 3, b[start + 1]);
    let d3 = hex_digit(b[start + 2])->0;
    lemma_ascii(text, i + 4, b[start + 2]);
    let d4 = hex_digit(b[start + 3])->0;
    lemma_ascii(text, i + 5, b[start + 3]);
    assert(unit == ((d1 * 16 + d2) * 16 + d3) * 16 + d4);
    let shown = text.subrange(i, i + 6);
    assert(is_hex(shown[2], d1) && is_hex(shown[3], d2) && is_hex(shown[4], d3) && is_hex(
        shown[5],
        d4,
    ));
    assert(unit / 0x1000 == d1 && unit / 0x100 % 0x10 == d2 && unit / 0x10 % 0x10 == d3 && unit
        % 0x10 == d4);
}

/// A number up to the greatest of a character is one, unless it is that of a surrogate.
proof fn lemma_char_of(code: int)
    requires
        0 <= code < 0xd800 || 0xe000 <= code < 0x11_0000,
    ensures
        (code as char) as int == code,
{
    let v = code as u32;
    assert(v == code);
    assert(is_scalar(v));
    char_u32_cast(v as char, v);
}

/// A character that is read from a string is written there.
proof fn lemma_read_char(text: Seq<char>, i: int, c: char, end: int) -> (len: int)
    requires
        0 <= i <= text.len(),
        string_char(encode_utf8(text), at(text, i)) == Ok::<(Option<char>, int), Fault>(
            (Some(c), end),
        ),
    ensures
        0 < len,
        i + len <= text.len(),
        end == at(text, i + len),
        writes_char(text.subrange(i, i + len), c),
{
    let b = encode_utf8(text);
    let pos = at(text, i);
    lemma_end(text, i);
    lemma_at(text, i);
    if b[pos] == 0x5c {
        lemma_ascii(text, i, 0x5c);
        assert(text[i] == '\\');
        lemma_end(text, i + 1);
        if b[pos + 1] == 0x75 {
            lemma_ascii(text, i + 1, 0x75);
            assert(text[i + 1] == 'u');
            let (unit, behind) = hex_number(b, pos + 2, 4, 0)->Ok_0;
            lemma_read_unit(text, i, unit, behind);
            if 0xd800 <= unit <= 0xdbff {
                lemma_end(text, i + 6);
                let second = behind_second_escape(b, behind)->Ok_0;
                lemma_ascii(text, i + 6, 0x5c);
                lemma_end(text, i + 7);
                lemma_ascii(text, i + 7, 0x75);
                assert(text[i + 6] == '\\');
                assert(text[i + 7] == 'u');
                let (low, last) = hex_number(b, second, 4, 0)->Ok_0;
                lemma_read_unit(text, i + 6, low, last);
                let code = 0x1_0000 + (unit - 0xd800) * 0x400 + (low - 0xdc00);
                lemma_char_of(code);
                assert(c as int == code);
                let shown = text.subrange(i, i + 12);
                assert(shown.take(6) =~= text.subrange(i, i + 6));
                assert(shown.skip(6) =~= text.subrange(i + 6, i + 12));
                assert((code - 0x1_0000) / 0x400 == unit - 0xd800);
                assert((code - 0x1_0000) % 0x400 == low - 0xdc00);
                12
            } else {
                lemma_char_of(unit);
                6
            }
        } else {
            assert(b[pos + 1] < 0x80);
            lemma_ascii(text, i + 1, b[pos + 1]);
            let shown = text.subrange(i, i + 2);
            assert(short_escape(b[pos + 1]) == Some(c));
            assert(is_letter_of(shown[1], c));
            2
        }
    } else {
        let rest = text.skip(i);
        encode_utf8_first_scalar(rest);
        char_is_scalar(text[i]);
        char_u32_cast(text[i], text[i] as u32);
        assert(rest[0] == text[i]);
        assert(c == text[i]);
        assert(end == at(text, i + 1));
        if (c as u32) < 0x80 {
            assert(b[pos] == c as u8);
            assert(c as u32 == c as u8);
        }
        1
    }
}

/// A string that is read is written character by character.
proof fn lemma_read_string(
    text: Seq<char>,
    map: Map<char, u8>,
    i: int,
    bytes: Seq<u8>,
    end: int,
) -> (read: (Seq<char>, Seq<Seq<char>>, int))
    requires
        0 <= i <= text.len(),
        string_bytes(encode_utf8(text), map, at(text, i)) == Ok::<(Seq<u8>, int), Fault>(
            (bytes, end),
        ),
    ensures
        ({
            let (token, chars, j) = read;
            &&& i <= j < text.len()
            &&& end == at(text, j + 1)
            &&& text[j] == '"'
            &&& chars.len() == token.len()
            &&& forall|k: int| 0 <= k < chars.len() ==> writes_char(#[trigger] chars[k], token[k])
            &&& chars.flatten() == text.subrange(i, j)
            &&& forall|k: int| 0 <= k < token.len() ==> map.contains_key(#[trigger] token[k])
            &&& bytes == mapped(map, token)
        }),
    decreases text.len() - i,
{
    let b = encode_utf8(text);
    let pos = at(text, i);
    match string_char(b, pos)->Ok_0 {
        (Some(c), behind) => {
            let len = lemma_read_char(text, i, c, behind);
            let (rest, last) = string_bytes(b, map, behind)->Ok_0;
            let (token, chars, j) = lemma_read_string(text, map, i + len, rest, last);
            let first = text.subrange(i, i + len);
            let own = seq![c] + token;
            let all = seq![first] + chars;
            assert(all.drop_first() =~= chars);
            assert(all.flatten() =~= first + chars.flatten());
            assert(first + text.subrange(i + len, j) =~= text.subrange(i, j));
            assert forall|k: int| 0 <= k < all.len() implies writes_char(
                #[trigger] all[k],
                own[k],
            ) by {
                if k > 0 {
                    assert(all[k] == chars[k - 1]);
                }
            }
            assert forall|k: int| 0 <= k < own.len() implies map.contains_key(
                #[trigger] own[k],
            ) by {
                if k > 0 {
                    assert(own[k] == token[k - 1]);
                }
            }
            assert(seq![map[c]] + mapped(map, token) =~= mapped(map, own));
            (own, all, j)
        },
        (None, _) => {
            lemma_end(text, i);
            lemma_ascii(text, i, 0x22);
            assert(text[i] == '"');
            let none = Seq::<Seq<char>>::empty();
            assert(none.flatten() =~= text.subrange(i, i));
            assert(bytes =~= mapped(map, Seq::empty()));
            (Seq::empty(), none, i)
        },
    }
}

/// What is read as digits are decimal ones.
proof fn lemma_read_digits(text: Seq<char>, i: int) -> (j: int)
    requires
        0 <= i <= text.len(),
    ensures
        i <= j <= text.len(),
        behind_digits(encode_utf8(text), at(text, i)) == at(text, j),
        at(text, j) == at(text, i) + (j - i),
        forall|k: int| i <= k < j ==> '0' <= #[trigger] text[k] <= '9',
        forall|k: int|
            i <= k < j ==> encode_utf8(text)[at(text, i) + (k - i)] as int
                == #[trigger] text[k] as int,
    decreases text.len() - i,
{
    let b = encode_utf8(text);
    lemma_end(text, i);
    if at(text, i) < b.len() && is_digit(b[at(text, i)]) {
        lemma_ascii(text, i, b[at(text, i)]);
        let j = lemma_read_digits(text, i + 1);
        assert forall|k: int| i <= k < j implies b[at(text, i) + (k - i)] as int
            == #[trigger] text[k] as int by {
            if k > i {
                assert(at(text, i + 1) + (k - (i + 1)) == at(text, i) + (k - i));
            }
        }
        j
    } else {
        i
    }
}

/// Digits without a zero before them are how their number is written.
proof fn lemma_digits_are_decimal(digits: Seq<char>, bytes: Seq<u8>)
    requires
        digits.len() > 0,
        bytes.len() == digits.len(),
        forall|k: int| 0 <= k < digits.len() ==> '0' <= #[trigger] digits[k] <= '9',
        forall|k: int| 0 <= k < digits.len() ==> bytes[k] as int == #[trigger] digits[k] as int,
        digits.len() > 1 ==> bytes[0] != 0x30,
    ensures
        decimal(number(bytes)) == digits,
        digits.len() > 1 || bytes[0] != 0x30 ==> number(bytes) > 0,
    decreases digits.len(),
{
    let last = (digits.last() as int - 0x30) as nat;
    assert(digits.last() == digits[digits.len() - 1]);
    assert(bytes.last() == bytes[digits.len() - 1]);
    if digits.len() == 1 {
        assert(bytes.drop_last() =~= Seq::<u8>::empty());
        reveal_with_fuel(number, 2);
        assert(number(bytes) == last);
        assert(digit(last) == digits[0]) by {
            char_u32_cast(digits[0], digits[0] as u32);
        }
        assert(decimal(number(bytes)) =~= digits);
    } else {
        let front = digits.drop_last();
        let before = bytes.drop_last();
        assert forall|k: int| 0 <= k < front.len() implies '0' <= #[trigger] front[k] <= '9' by {
            assert(front[k] == digits[k]);
        }
        assert forall|k: int| 0 <= k < front.len() implies before[k] as int
            == #[trigger] front[k] as int by {
            assert(front[k] == digits[k]);
        }
        lemma_digits_are_decimal(front, before);
        let n = number(bytes);
        assert(n == number(before) * 10 + last);
        assert(n / 10 == number(before));
        assert(n % 10 == last);
        assert(digit(last) == digits.last()) by {
            char_u32_cast(digits.last(), digits.last() as u32);
        }
        assert(decimal(n) =~= digits);
    }
}

/// An entry that is read is written there.
proof fn lemma_read_entry(
    text: Seq<char>,
    map: Map<char, u8>,
    i: int,
    entry: (Seq<u8>, Rank),
    end: int,
) -> (read: (Written, int))
    requires
        0 <= i <= text.len(),
        entry_at(encode_utf8(text), map, at(text, i)) == Ok::<((Seq<u8>, Rank), int), Fault>(
            (entry, end),
        ),
    ensures
        ({
            let (w, j) = read;
            &&& i <= j <= text.len()
            &&& is_written(w)
            &&& forall|k: int| 0 <= k < w.token.len() ==> map.contains_key(#[trigger] w.token[k])
            &&& entry == (mapped(map, w.token), w.rank)
            &&& entry_text(w) == text.subrange(i, j)
            &&& behind_space(encode_utf8(text), end) == at(text, j)
        }),
{
    let b = encode_utf8(text);
    let quote = lemma_read_blank(text, i);
    let (bytes, behind_string) = string_at(b, map, at(text, quote))->Ok_0;
    lemma_end(text, quote);
    lemma_ascii(text, quote, 0x22);
    let (token, chars, close) = lemma_read_string(text, map, quote + 1, bytes, behind_string);
    let colon = lemma_read_blank(text, close + 1);
    lemma_end(text, colon);
    lemma_ascii(text, colon, 0x3a);
    let start = lemma_read_blank(text, colon + 1);
    let (rank, behind_rank) = rank_at(b, at(text, start))->Ok_0;
    let stop = lemma_read_digits(text, start);
    lemma_end(text, stop);
    let digits = text.subrange(start, stop);
    let digit_bytes = b.subrange(at(text, start), at(text, stop));
    assert forall|k: int| 0 <= k < digits.len() implies '0' <= #[trigger] digits[k] <= '9' by {
        assert(digits[k] == text[start + k]);
    }
    assert forall|k: int| 0 <= k < digits.len() implies digit_bytes[k] as int
        == #[trigger] digits[k] as int by {
        assert(digits[k] == text[start + k]);
        assert(at(text, start) + ((start + k) - start) == at(text, start) + k);
    }
    lemma_digits_are_decimal(digits, digit_bytes);
    let j = lemma_read_blank(text, stop);
    let w = Written {
        token,
        rank,
        before: text.subrange(i, quote),
        chars,
        behind_token: text.subrange(close + 1, colon),
        behind_colon: text.subrange(colon + 1, start),
        behind_rank: text.subrange(stop, j),
    };
    assert(text[quote] == '"');
    assert(text[colon] == ':');
    assert(entry_text(w) =~= text.subrange(i, j));
    (w, j)
}

/// Entries that are read are written there.
#[verifier::rlimit(40)]
proof fn lemma_read_entries(text: Seq<char>, map: Map<char, u8>, i: int) -> (read: (
    Seq<Written>,
    int,
))
    requires
        0 <= i <= text.len(),
        listing_from(encode_utf8(text), map, Ok(Some(at(text, i)))).fault is None,
    ensures
        ({
            let (list, j) = read;
            let entries = listing_from(encode_utf8(text), map, Ok(Some(at(text, i)))).entries;
            &&& list.len() > 0
            &&& i <= j < text.len()
            &&& text[j] == '}'
            &&& all_blank(text.skip(j + 1))
            &&& entries_text(list) == text.subrange(i, j)
            &&& forall|k: int|
                0 <= k < list.len() ==> is_written(#[trigger] list[k]) && forall|n: int|
                    0 <= n < list[k].token.len() ==> map.contains_key(#[trigger] list[k].token[n])
            &&& entries.len() == list.len()
            &&& forall|k: int|
                0 <= k < list.len() ==> #[trigger] entries[k] == (
                    mapped(map, list[k].token),
                    list[k].rank,
                )
        }),
    decreases text.len() - i,
{
    let b = encode_utf8(text);
    let all = listing_from(b, map, Ok(Some(at(text, i)))).entries;
    let (entry, end) = entry_at(b, map, at(text, i))->Ok_0;
    let (w, j) = lemma_read_entry(text, map, i, entry, end);
    lemma_end(text, j);
    let rest = listing_from(b, map, next_entry(b, end));
    assert(rest.fault is None);
    assert(next_entry(b, end) is Ok);
    assert(entry_text(w).len() > 0);
    if b[at(text, j)] == 0x2c {
        lemma_ascii(text, j, 0x2c);
        assert(text[j] == ',');
        assert(next_entry(b, end) == Ok::<Option<int>, Fault>(Some(at(text, j + 1))));
        let (others, close) = lemma_read_entries(text, map, j + 1);
        let list = seq![w] + others;
        assert(list.skip(1) =~= others);
        assert(entries_text(list) =~= text.subrange(i, close));
        assert forall|k: int| 0 <= k < list.len() implies is_written(#[trigger] list[k]) && forall|
            n: int,
        |
            0 <= n < list[k].token.len() ==> map.contains_key(#[trigger] list[k].token[n]) by {
            if k > 0 {
                assert(list[k] == others[k - 1]);
            }
        }
        assert forall|k: int| 0 <= k < list.len() implies #[trigger] all[k] == (
            mapped(map, list[k].token),
            list[k].rank,
        ) by {
            if k > 0 {
                assert(list[k] == others[k - 1]);
                assert(all[k] == rest.entries[k - 1]);
            }
        }
        (list, close)
    } else {
        assert(b[at(text, j)] == 0x7d);
        lemma_ascii(text, j, 0x7d);
        assert(text[j] == '}');
        assert(object_end(b, at(text, j + 1)) is Ok);
        let last = lemma_read_blank(text, j + 1);
        lemma_end(text, last);
        assert(last == text.len());
        assert(text.skip(j + 1) =~= text.subrange(j + 1, last));
        let list = seq![w];
        assert(entries_text(list) == entry_text(w));
        assert(rest.entries.len() == 0);
        (list, j)
    }
}

/// What is read without a fault is an object: white space, an opening brace, the entries
/// with commas between them, a closing brace and white space. Each entry is written as an
/// object allows it, and what was read is what it says.
#[verifier::rlimit(40)]
pub proof fn law_read_object_was_written(b: Seq<u8>, map: Map<char, u8>) -> (read: (
    Seq<char>,
    Seq<Written>,
    Seq<char>,
    Seq<char>,
))
    requires
        listing(b, map).fault is None,
    ensures
        ({
            let (lead, list, blank, trail) = read;
            let entries = listing(b, map).entries;
            &&& all_blank(lead)
            &&& all_blank(blank)
            &&& all_blank(trail)
            &&& b == encode_utf8(
                lead + (seq!['{'] + ((if list.len() == 0 {
                    blank
                } else {
                    entries_text(list)
                }) + (seq!['}'] + trail))),
            )
            &&& forall|k: int| 0 <= k < list.len() ==> is_written(#[trigger] list[k])
            &&& entries.len() == list.len()
            &&& forall|k: int|
                0 <= k < list.len() ==> (#[trigger] entries[k]).0.len() == list[k].token.len()
                    && entries[k].1 == list[k].rank
            &&& forall|k: int, n: int|
                0 <= k < list.len() && 0 <= n < list[k].token.len() ==> map.contains_key(
                    list[k].token[n],
                ) && #[trigger] entries[k].0[n] == map[list[k].token[n]]
        }),
{
    let text = decode_utf8(b);
    decode_utf8_encode_utf8(b);
    let entries = listing(b, map).entries;
    assert(text.take(0) =~= Seq::<char>::empty());
    assert(at(text, 0) == 0);
    let open = lemma_read_blank(text, 0);
    lemma_end(text, open);
    assert(first_entry(b) is Ok);
    assert(behind_byte(b, at(text, open), 0x7b, "expected '{'"@) is Ok);
    lemma_ascii(text, open, 0x7b);
    assert(text[open] == '{');
    let start = lemma_read_blank(text, open + 1);
    lemma_end(text, start);
    let lead = text.subrange(0, open);
    let blank = text.subrange(open + 1, start);
    if at(text, start) < b.len() && b[at(text, start)] == 0x7d {
        lemma_ascii(text, start, 0x7d);
        assert(text[start] == '}');
        let last = lemma_read_blank(text, start + 1);
        lemma_end(text, last);
        let trail = text.skip(start + 1);
        assert(object_end(b, at(text, start + 1)) is Ok);
        assert(trail =~= text.subrange(start + 1, last));
        assert(text =~= lead + (seq!['{'] + (blank + (seq!['}'] + trail))));
        (lead, Seq::empty(), blank, trail)
    } else {
        assert(first_entry(b) == Ok::<Option<int>, Fault>(Some(at(text, start))));
        let (others, close) = lemma_read_entries(text, map, start);
        let trail = text.skip(close + 1);
        let first = others[0];
        let w = Written { before: blank + first.before, ..first };
        let list = others.update(0, w);
        assert(is_written(others[0]));
        assert(all_blank(w.before)) by {
            assert forall|k: int| 0 <= k < w.before.len() implies is_blank(
                #[trigger] w.before[k],
            ) by {
                if k < blank.len() {
                    assert(w.before[k] == blank[k]);
                } else {
                    assert(w.before[k] == first.before[k - blank.len()]);
                }
            }
        }
        assert(entry_text(w) =~= blank + entry_text(first));
        assert(list.skip(1) =~= others.skip(1));
        assert(entries_text(list) =~= blank + entries_text(others));
        assert(text =~= lead + (seq!['{'] + (entries_text(list) + (seq!['}'] + trail))));
        assert forall|k: int| 0 <= k < list.len() implies is_written(#[trigger] list[k]) by {
            let other = others[k];
        }
        assert forall|k: int| 0 <= k < list.len() implies (#[trigger] entries[k]).0.len()
            == list[k].token.len() && entries[k].1 == list[k].rank by {
            assert(list[k].token == others[k].token);
        }
        assert forall|k: int, n: int|
            0 <= k < list.len() && 0 <= n < list[k].token.len() implies map.contains_key(
            list[k].token[n],
        ) && #[trigger] entries[k].0[n] == map[list[k].token[n]] by {
            assert(list[k].token == others[k].token);
            assert(entries[k] == (mapped(map, others[k].token), others[k].rank));
            assert(map.contains_key(others[k].token[n]));
        }
        (lead, list, blank, trail)
    }
}

/// A fault in `encoder.json` is no mismatch with the other file.
pub proof fn law_bytes_of_no_text_are_no_object(b: Seq<u8>, map: Map<char, u8>)
    requires
        !valid_utf8(b),
    ensures
        listing(b, map).entries.len() == 0,
        listing(b, map).fault matches Some(fault) && !fault.is_mismatch,
{
}

} // verus!
