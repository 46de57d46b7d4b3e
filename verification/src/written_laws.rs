//! What holds of reading `encoder.json`, however it is written: with white space between
//! its parts, and with any escapes in its strings.
use vstd::prelude::*;
use vstd::utf8::*;

use crate::bpe::Rank;
use crate::data_gym::{Fault, mapped};
use crate::json::{
    Listing, behind_space, entry_at, first_entry, hex_digit, hex_number, is_json_space, listing,
    listing_from, next_entry, string_bytes, string_char,
};
use crate::json_laws::{
    at, lemma_at, lemma_number, lemma_rank_at, lemma_stands_parts, stands_at,
};
use crate::text::decimal;

verus! {

/// White space between the parts of an object.
pub open spec fn is_blank(c: char) -> bool {
    c == ' ' || c == '\t' || c == '\n' || c == '\r'
}

/// White space only.
pub open spec fn all_blank(text: Seq<char>) -> bool {
    forall|i: int| 0 <= i < text.len() ==> is_blank(#[trigger] text[i])
}

/// The character is a hexadecimal digit of this value, in either case.
pub open spec fn is_hex(c: char, value: int) -> bool {
    ||| 0 <= value < 10 && c as int == 0x30 + value
    ||| 10 <= value < 16 && c as int == 0x41 + value - 10
    ||| 10 <= value < 16 && c as int == 0x61 + value - 10
}

/// The text is an escape of a unit of 16 bits: a backslash, the letter `u` and four
/// hexadecimal digits.
pub open spec fn is_unit(text: Seq<char>, unit: int) -> bool {
    &&& text.len() == 6
    &&& text[0] == '\\'
    &&& text[1] == 'u'
    &&& 0 <= unit < 0x1_0000
    &&& is_hex(text[2], unit / 0x1000)
    &&& is_hex(text[3], unit / 0x100 % 0x10)
    &&& is_hex(text[4], unit / 0x10 % 0x10)
    &&& is_hex(text[5], unit % 0x10)
}

/// A letter that stands for a character behind a backslash.
pub open spec fn is_letter_of(letter: char, c: char) -> bool {
    ||| letter == c && (c == '"' || c == '\\' || c == '/')
    ||| letter == 'b' && c as u32 == 0x8
    ||| letter == 'f' && c as u32 == 0xc
    ||| letter == 'n' && c == '\n'
    ||| letter == 'r' && c == '\r'
    ||| letter == 't' && c == '\t'
}

/// The text is a way to write a character in a string: as it is, but for control
/// characters, quotes and backslashes; with a letter behind a backslash; as the unit that
/// is its number; or as two units, for a number of more than 16 bits.
pub open spec fn writes_char(text: Seq<char>, c: char) -> bool {
    ||| text.len() == 1 && text[0] == c && c as u32 >= 0x20 && c != '"' && c != '\\'
    ||| text.len() == 2 && text[0] == '\\' && is_letter_of(text[1], c)
    ||| is_unit(text, c as int)
    ||| c as int >= 0x1_0000 && text.len() == 12 && is_unit(
        text.take(6),
        0xd800 + (c as int - 0x1_0000) / 0x400,
    ) && is_unit(text.skip(6), 0xdc00 + (c as int - 0x1_0000) % 0x400)
}

/// An entry, and how it is written: the white space before its token, behind it, behind
/// the colon and behind the rank, and each character of the token.
pub struct Written {
    pub token: Seq<char>,
    pub rank: Rank,
    pub before: Seq<char>,
    pub chars: Seq<Seq<char>>,
    pub behind_token: Seq<char>,
    pub behind_colon: Seq<char>,
    pub behind_rank: Seq<char>,
}

/// The entry is written as an object allows it.
pub open spec fn is_written(w: Written) -> bool {
    &&& all_blank(w.before)
    &&& all_blank(w.behind_token)
    &&& all_blank(w.behind_colon)
    &&& all_blank(w.behind_rank)
    &&& w.chars.len() == w.token.len()
    &&& forall|i: int| 0 <= i < w.chars.len() ==> writes_char(#[trigger] w.chars[i], w.token[i])
}

/// The text of an entry.
pub open spec fn entry_text(w: Written) -> Seq<char> {
    w.before + (seq!['"'] + (w.chars.flatten() + (seq!['"'] + (w.behind_token + (seq![':'] + (
    w.behind_colon + (decimal(w.rank as nat) + w.behind_rank)))))))
}

/// The text of entries, with commas between them.
pub open spec fn entries_text(list: Seq<Written>) -> Seq<char>
    decreases list.len(),
{
    if list.len() == 0 {
        Seq::empty()
    } else if list.len() == 1 {
        entry_text(list[0])
    } else {
        entry_text(list[0]) + (seq![','] + entries_text(list.skip(1)))
    }
}

/// White space that stands in a text is skipped.
proof fn lemma_skip_blank(text: Seq<char>, i: int, blank: Seq<char>)
    requires
        stands_at(text, i, blank),
        all_blank(blank),
        i + blank.len() < text.len() ==> !is_blank(text[i + blank.len()]),
    ensures
        behind_space(encode_utf8(text), at(text, i)) == at(text, i + blank.len()),
    decreases blank.len(),
{
    let b = encode_utf8(text);
    if blank.len() == 0 {
        if i < text.len() {
            lemma_at(text, i);
            let c = text[i];
            char_u32_cast(c, c as u32);
            if (c as u32) < 0x80 && is_json_space(c as u8) {
                assert(c as u32 == c as u8);
                assert(is_blank(c));
            }
        } else {
            assert(text.take(i) =~= text);
        }
    } else {
        let rest = blank.skip(1);
        lemma_at(text, i);
        assert(text[i + 0] == blank[0]);
        assert(is_blank(blank[0]));
        assert forall|k: int| 0 <= k < rest.len() implies text[i + 1 + k]
            == #[trigger] rest[k] by {
            assert(text[i + (k + 1)] == blank[k + 1]);
            assert(rest[k] == blank[k + 1]);
        }
        assert forall|k: int| 0 <= k < rest.len() implies is_blank(#[trigger] rest[k]) by {
            assert(rest[k] == blank[k + 1]);
        }
        lemma_skip_blank(text, i + 1, rest);
    }
}

/// A hexadecimal digit is an ASCII character with its value.
proof fn lemma_hex(c: char, value: int)
    requires
        is_hex(c, value),
    ensures
        (c as u32) < 0x80,
        hex_digit(c as u8) == Some(value),
{
}

/// The digits of a unit are read as its number.
proof fn lemma_unit(text: Seq<char>, i: int, unit: int, shown: Seq<char>)
    requires
        stands_at(text, i, shown),
        is_unit(shown, unit),
    ensures
        text[i] == '\\',
        text[i + 1] == 'u',
        at(text, i + 1) == at(text, i) + 1,
        at(text, i + 2) == at(text, i) + 2,
        at(text, i + 6) <= encode_utf8(text).len(),
        encode_utf8(text)[at(text, i)] == 0x5c,
        encode_utf8(text)[at(text, i + 1)] == 0x75,
        hex_number(encode_utf8(text), at(text, i + 2), 4, 0) == Ok::<(int, int), Fault>(
            (unit, at(text, i + 6)),
        ),
{
    let b = encode_utf8(text);
    assert(text[i + 0] == shown[0]);
    assert(text[i + 1] == shown[1]);
    assert(text[i + 2] == shown[2]);
    assert(text[i + 3] == shown[3]);
    assert(text[i + 4] == shown[4]);
    assert(text[i + 5] == shown[5]);
    lemma_at(text, i);
    lemma_at(text, i + 1);
    lemma_hex(shown[2], unit / 0x1000);
    lemma_hex(shown[3], unit / 0x100 % 0x10);
    lemma_hex(shown[4], unit / 0x10 % 0x10);
    lemma_hex(shown[5], unit % 0x10);
    lemma_at(text, i + 2);
    lemma_at(text, i + 3);
    lemma_at(text, i + 4);
    lemma_at(text, i + 5);
    let start = at(text, i + 2);
    assert(hex_number(b, start, 4, 0) == Ok::<(int, int), Fault>((unit, start + 4))) by {
        reveal_with_fuel(hex_number, 5);
        assert(unit == ((unit / 0x1000 * 16 + unit / 0x100 % 0x10) * 16 + unit / 0x10 % 0x10) * 16
            + unit % 0x10);
    }
}

/// A character of a string is read as it was written.
proof fn lemma_written_char(text: Seq<char>, i: int, c: char, shown: Seq<char>)
    requires
        stands_at(text, i, shown),
        writes_char(shown, c),
    ensures
        shown.len() > 0,
        string_char(encode_utf8(text), at(text, i)) == Ok::<(Option<char>, int), Fault>(
            (Some(c), at(text, i + shown.len())),
        ),
{
    let b = encode_utf8(text);
    char_u32_cast(c, c as u32);
    char_is_scalar(c);
    assert(text[i + 0] == shown[0]);
    lemma_at(text, i);
    if shown.len() == 1 {
        let rest = text.skip(i);
        assert(rest[0] == c);
        encode_utf8_first_scalar(rest);
    } else if shown.len() == 2 {
        assert(text[i + 1] == shown[1]);
        lemma_at(text, i + 1);
    } else if shown.len() == 6 {
        lemma_unit(text, i, c as int, shown);
    } else {
        let high = shown.take(6);
        let low = shown.skip(6);
        let first = 0xd800 + (c as int - 0x1_0000) / 0x400;
        let second = 0xdc00 + (c as int - 0x1_0000) % 0x400;
        assert(shown =~= high + low);
        lemma_stands_parts(text, i, high, low);
        lemma_unit(text, i, first, high);
        lemma_unit(text, i + 6, second, low);
        assert(0x1_0000 + (first - 0xd800) * 0x400 + (second - 0xdc00) == c as int);
    }
}

/// A string is read as it was written.
proof fn lemma_written_string(
    text: Seq<char>,
    map: Map<char, u8>,
    i: int,
    token: Seq<char>,
    chars: Seq<Seq<char>>,
)
    requires
        chars.len() == token.len(),
        forall|k: int| 0 <= k < chars.len() ==> writes_char(#[trigger] chars[k], token[k]),
        stands_at(text, i, chars.flatten() + seq!['"']),
        forall|k: int| 0 <= k < token.len() ==> map.contains_key(#[trigger] token[k]),
    ensures
        string_bytes(encode_utf8(text), map, at(text, i)) == Ok::<(Seq<u8>, int), Fault>(
            (mapped(map, token), at(text, i + chars.flatten().len() + 1)),
        ),
    decreases token.len(),
{
    let b = encode_utf8(text);
    let shown = chars.flatten() + seq!['"'];
    if token.len() == 0 {
        assert(chars.flatten() =~= Seq::<char>::empty());
        assert(text[i + 0] == shown[0]);
        lemma_at(text, i);
        assert(mapped(map, token) =~= Seq::<u8>::empty());
    } else {
        let c = token[0];
        let rest = token.skip(1);
        let others = chars.drop_first();
        let len = chars[0].len() as int;
        assert(shown =~= chars[0] + (others.flatten() + seq!['"']));
        lemma_stands_parts(text, i, chars[0], others.flatten() + seq!['"']);
        assert(writes_char(chars[0], token[0]));
        lemma_written_char(text, i, c, chars[0]);
        assert forall|k: int| 0 <= k < rest.len() implies map.contains_key(#[trigger] rest[k]) by {
            assert(rest[k] == token[k + 1]);
        }
        assert forall|k: int| 0 <= k < others.len() implies writes_char(
            #[trigger] others[k],
            rest[k],
        ) by {
            assert(others[k] == chars[k + 1]);
        }
        lemma_written_string(text, map, i + len, rest, others);
        assert(map.contains_key(token[0]));
        assert(seq![map[c]] + mapped(map, rest) =~= mapped(map, token));
    }
}

/// An entry is read as it was written, and the white space behind it is skipped.
proof fn lemma_written_entry(text: Seq<char>, map: Map<char, u8>, i: int, w: Written)
    requires
        is_written(w),
        forall|k: int| 0 <= k < w.token.len() ==> map.contains_key(#[trigger] w.token[k]),
        stands_at(text, i, entry_text(w)),
        i + entry_text(w).len() < text.len(),
        text[i + entry_text(w).len()] == ',' || text[i + entry_text(w).len()] == '}',
    ensures
        entry_at(encode_utf8(text), map, at(text, i)) matches Ok((entry, end)) && entry == (
            mapped(map, w.token),
            w.rank,
        ) && behind_space(encode_utf8(text), end) == at(text, i + entry_text(w).len()),
{
    let b = encode_utf8(text);
    let digits = decimal(w.rank as nat);
    let key = w.chars.flatten();
    lemma_number(w.rank as nat);
    let e = digits + w.behind_rank;
    let d = w.behind_colon + e;
    let c = seq![':'] + d;
    let behind = w.behind_token + c;
    let a = key + (seq!['"'] + behind);
    lemma_stands_parts(text, i, w.before, seq!['"'] + a);
    let quote = i + w.before.len();
    lemma_stands_parts(text, quote, seq!['"'], a);
    assert(text[quote + 0] == seq!['"'][0]);
    lemma_skip_blank(text, i, w.before);
    lemma_at(text, quote);
    assert(a =~= (key + seq!['"']) + behind);
    lemma_stands_parts(text, quote + 1, key + seq!['"'], behind);
    lemma_written_string(text, map, quote + 1, w.token, w.chars);
    let closed = quote + 1 + key.len() + 1;
    lemma_stands_parts(text, closed, w.behind_token, c);
    let colon = closed + w.behind_token.len();
    lemma_stands_parts(text, colon, seq![':'], d);
    assert(text[colon + 0] == seq![':'][0]);
    lemma_skip_blank(text, closed, w.behind_token);
    lemma_at(text, colon);
    lemma_stands_parts(text, colon + 1, w.behind_colon, e);
    let start = colon + 1 + w.behind_colon.len();
    lemma_stands_parts(text, start, digits, w.behind_rank);
    assert(text[start + 0] == digits[0]);
    lemma_skip_blank(text, colon + 1, w.behind_colon);
    let end = start + digits.len();
    assert(end + w.behind_rank.len() == i + entry_text(w).len());
    if w.behind_rank.len() > 0 {
        assert(text[end + 0] == w.behind_rank[0]);
    }
    lemma_rank_at(text, start, w.rank);
    lemma_skip_blank(text, end, w.behind_rank);
}

/// The entries of an object are read as they were written.
#[verifier::rlimit(40)]
proof fn lemma_written_entries(
    text: Seq<char>,
    map: Map<char, u8>,
    i: int,
    list: Seq<Written>,
    trail: Seq<char>,
)
    requires
        list.len() > 0,
        all_blank(trail),
        forall|k: int|
            0 <= k < list.len() ==> is_written(#[trigger] list[k]) && forall|n: int|
                0 <= n < list[k].token.len() ==> map.contains_key(#[trigger] list[k].token[n]),
        stands_at(text, i, entries_text(list) + (seq!['}'] + trail)),
        text.len() == i + entries_text(list).len() + 1 + trail.len(),
    ensures
        listing_from(encode_utf8(text), map, Ok(Some(at(text, i)))) == (Listing {
            entries: Seq::new(list.len(), |k: int| (mapped(map, list[k].token), list[k].rank)),
            fault: None,
        }),
    decreases list.len(),
{
    let b = encode_utf8(text);
    let w = list[0];
    let shown = entry_text(w);
    let end = i + shown.len();
    let expected = Seq::new(list.len(), |k: int| (mapped(map, list[k].token), list[k].rank));
    assert(is_written(list[0]));
    if list.len() == 1 {
        lemma_stands_parts(text, i, shown, seq!['}'] + trail);
        lemma_stands_parts(text, end, seq!['}'], trail);
        assert(text[end + 0] == seq!['}'][0]);
        lemma_written_entry(text, map, i, w);
        lemma_at(text, end);
        lemma_skip_blank(text, end + 1, trail);
        assert(text.take(text.len() as int) =~= text);
        let behind = entry_at(b, map, at(text, i))->Ok_0.1;
        assert(next_entry(b, behind) == Ok::<Option<int>, Fault>(None));
        assert(listing_from(b, map, Ok(None)).entries =~= Seq::<(Seq<u8>, Rank)>::empty());
        assert(expected =~= seq![(mapped(map, w.token), w.rank)] + Seq::<(Seq<u8>, Rank)>::empty());
    } else {
        let rest = list.skip(1);
        let tail = entries_text(rest) + (seq!['}'] + trail);
        assert(entries_text(list) + (seq!['}'] + trail) =~= shown + (seq![','] + tail));
        lemma_stands_parts(text, i, shown, seq![','] + tail);
        lemma_stands_parts(text, end, seq![','], tail);
        assert(text[end + 0] == seq![','][0]);
        lemma_written_entry(text, map, i, w);
        lemma_at(text, end);
        assert forall|k: int| 0 <= k < rest.len() implies is_written(#[trigger] rest[k]) && forall|
            n: int,
        |
            0 <= n < rest[k].token.len() ==> map.contains_key(#[trigger] rest[k].token[n]) by {
            assert(rest[k] == list[k + 1]);
        }
        lemma_written_entries(text, map, end + 1, rest, trail);
        let behind = entry_at(b, map, at(text, i))->Ok_0.1;
        assert(next_entry(b, behind) == Ok::<Option<int>, Fault>(Some(at(text, end + 1))));
        assert(expected =~= seq![(mapped(map, w.token), w.rank)] + Seq::new(
            rest.len(),
            |k: int| (mapped(map, rest[k].token), rest[k].rank),
        ));
    }
}

/// An object is read back however it is written: every entry, in order, and nothing else.
/// Each character of a token stands for its byte.
#[verifier::rlimit(40)]
pub proof fn law_written_object_is_read_back(
    map: Map<char, u8>,
    lead: Seq<char>,
    list: Seq<Written>,
    trail: Seq<char>,
)
    requires
        list.len() > 0,
        all_blank(lead),
        all_blank(trail),
        forall|k: int|
            0 <= k < list.len() ==> is_written(#[trigger] list[k]) && forall|n: int|
                0 <= n < list[k].token.len() ==> map.contains_key(#[trigger] list[k].token[n]),
    ensures
        ({
            let listed = listing(
                encode_utf8(lead + (seq!['{'] + (entries_text(list) + (seq!['}'] + trail)))),
                map,
            );
            &&& listed.fault is None
            &&& listed.entries == Seq::new(
                list.len(),
                |k: int|
                    (
                        Seq::new(list[k].token.len(), |n: int| map[list[k].token[n]]),
                        list[k].rank,
                    ),
            )
        }),
{
    let tail = entries_text(list) + (seq!['}'] + trail);
    let text = lead + (seq!['{'] + tail);
    let b = encode_utf8(text);
    encode_utf8_valid_utf8(text);
    assert(stands_at(text, 0, lead + (seq!['{'] + tail)));
    lemma_stands_parts(text, 0, lead, seq!['{'] + tail);
    let open = lead.len() as int;
    lemma_stands_parts(text, open, seq!['{'], tail);
    assert(text[open + 0] == seq!['{'][0]);
    assert(text.take(0) =~= Seq::<char>::empty());
    lemma_skip_blank(text, 0, lead);
    lemma_at(text, open);
    let w = list[0];
    assert(is_written(list[0]));
    let rest = seq!['"'] + (w.chars.flatten() + (seq!['"'] + (w.behind_token + (seq![':'] + (
    w.behind_colon + (decimal(w.rank as nat) + w.behind_rank))))));
    assert(entry_text(w) == w.before + rest);
    let more = if list.len() == 1 {
        seq!['}'] + trail
    } else {
        (seq![','] + entries_text(list.skip(1))) + (seq!['}'] + trail)
    };
    assert(tail =~= w.before + (rest + more));
    lemma_stands_parts(text, open + 1, w.before, rest + more);
    let quote = open + 1 + w.before.len();
    assert(text[quote + 0] == (rest + more)[0]);
    lemma_skip_blank(text, open + 1, w.before);
    lemma_at(text, quote);
    assert(first_entry(b) == Ok::<Option<int>, Fault>(Some(at(text, quote))));
    let trimmed = Written { before: Seq::empty(), ..w };
    let shorter = list.update(0, trimmed);
    assert(entry_text(trimmed) =~= rest);
    assert(shorter.skip(1) =~= list.skip(1));
    assert(entries_text(shorter) + (seq!['}'] + trail) =~= rest + more);
    lemma_stands_parts(text, open + 1, w.before, rest + more);
    assert forall|k: int| 0 <= k < shorter.len() implies is_written(#[trigger] shorter[k])
        && forall|n: int|
        0 <= n < shorter[k].token.len() ==> map.contains_key(#[trigger] shorter[k].token[n]) by {
        let own = list[k];
        if k == 0 {
            assert forall|n: int| 0 <= n < trimmed.token.len() implies map.contains_key(
                #[trigger] trimmed.token[n],
            ) by {
                assert(map.contains_key(list[0].token[n]));
            }
        }
    }
    lemma_written_entries(text, map, quote, shorter, trail);
    let read = listing(b, map).entries;
    let expected = Seq::new(
        list.len(),
        |k: int| (Seq::new(list[k].token.len(), |n: int| map[list[k].token[n]]), list[k].rank),
    );
    assert forall|k: int| 0 <= k < list.len() implies #[trigger] read[k] == expected[k] by {
        assert(shorter[k].token == list[k].token);
        assert(mapped(map, list[k].token) =~= Seq::new(
            list[k].token.len(),
            |n: int| map[list[k].token[n]],
        ));
    }
    assert(read =~= expected);
}

/// An object without entries is read as one, however it is written.
pub proof fn law_written_empty_object_is_read_back(
    map: Map<char, u8>,
    lead: Seq<char>,
    blank: Seq<char>,
    trail: Seq<char>,
)
    requires
        all_blank(lead),
        all_blank(blank),
        all_blank(trail),
    ensures
        ({
            let listed = listing(
                encode_utf8(lead + (seq!['{'] + (blank + (seq!['}'] + trail)))),
                map,
            );
            listed.fault is None && listed.entries.len() == 0
        }),
{
    let tail = blank + (seq!['}'] + trail);
    let text = lead + (seq!['{'] + tail);
    let b = encode_utf8(text);
    encode_utf8_valid_utf8(text);
    assert(stands_at(text, 0, lead + (seq!['{'] + tail)));
    lemma_stands_parts(text, 0, lead, seq!['{'] + tail);
    let open = lead.len() as int;
    lemma_stands_parts(text, open, seq!['{'], tail);
    assert(text[open + 0] == seq!['{'][0]);
    assert(text.take(0) =~= Seq::<char>::empty());
    lemma_skip_blank(text, 0, lead);
    lemma_at(text, open);
    lemma_stands_parts(text, open + 1, blank, seq!['}'] + trail);
    let close = open + 1 + blank.len();
    lemma_stands_parts(text, close, seq!['}'], trail);
    assert(text[close + 0] == seq!['}'][0]);
    lemma_skip_blank(text, open + 1, blank);
    lemma_at(text, close);
    lemma_skip_blank(text, close + 1, trail);
    assert(text.take(text.len() as int) =~= text);
    assert(first_entry(b) == Ok::<Option<int>, Fault>(None));
}

} // verus!
