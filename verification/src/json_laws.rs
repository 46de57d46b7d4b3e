//! What holds of reading `encoder.json`: an object that is written down is read back.
use vstd::prelude::*;
use vstd::utf8::*;

use crate::bpe::Rank;
use crate::data_gym::{Fault, mapped};
use crate::json::{
    ZERO, Listing, behind_digits, behind_space, entry_at, first_entry, hex_digit, hex_number,
    is_json_space, listing, listing_from, next_entry, number, rank_at, string_bytes, string_char,
};
use crate::split::{lemma_encode_add, lemma_prefix_is_boundary};
use crate::text::{decimal, digit};

verus! {

/// A hexadecimal digit.
pub open spec fn hex_char(d: int) -> char {
    if d < 10 {
        (0x30 + d) as char
    } else {
        (0x61 + d - 10) as char
    }
}

/// A character as it is written in a string: quotes, backslashes and control characters
/// with an escape.
pub open spec fn shown_char(c: char) -> Seq<char> {
    if c == '"' || c == '\\' {
        seq!['\\', c]
    } else if (c as u32) < 0x20 {
        seq!['\\', 'u', '0', '0', hex_char(c as u32 as int / 16), hex_char(c as u32 as int % 16)]
    } else {
        seq![c]
    }
}

/// Characters as they are written in a string.
pub open spec fn shown_chars(text: Seq<char>) -> Seq<char>
    decreases text.len(),
{
    if text.len() == 0 {
        Seq::empty()
    } else {
        shown_char(text[0]) + shown_chars(text.skip(1))
    }
}

/// An entry as it is written in an object.
pub open spec fn shown_entry(entry: (Seq<char>, Rank)) -> Seq<char> {
    seq!['"'] + shown_chars(entry.0) + seq!['"', ':', ' '] + decimal(entry.1 as nat)
}

/// Entries as they are written in an object, with commas between them.
pub open spec fn shown_entries(entries: Seq<(Seq<char>, Rank)>) -> Seq<char>
    decreases entries.len(),
{
    if entries.len() == 0 {
        Seq::empty()
    } else if entries.len() == 1 {
        shown_entry(entries[0])
    } else {
        shown_entry(entries[0]) + seq![',', ' '] + shown_entries(entries.skip(1))
    }
}

/// An object with the given entries.
pub open spec fn shown_object(entries: Seq<(Seq<char>, Rank)>) -> Seq<char> {
    seq!['{'] + shown_entries(entries) + seq!['}']
}

/// The byte at which a character of a text starts.
pub(crate) open spec fn at(text: Seq<char>, i: int) -> int {
    encode_utf8(text.take(i)).len() as int
}

/// Where characters start, and with which byte.
pub(crate) proof fn lemma_at(text: Seq<char>, i: int)
    requires
        0 <= i < text.len(),
    ensures
        0 <= at(text, i) < at(text, i + 1) <= encode_utf8(text).len(),
        encode_utf8(text).skip(at(text, i)) == encode_utf8(text.skip(i)),
        at(text, i + 1) == at(text, i) + encode_scalar(text[i] as u32).len(),
        (text[i] as u32) < 0x80 ==> at(text, i + 1) == at(text, i) + 1 && encode_utf8(
            text,
        )[at(text, i)] == text[i] as u8,
        (text[i] as u32) >= 0x80 ==> encode_utf8(text)[at(text, i)] >= 0x80,
{
    let front = text.take(i);
    let back = text.skip(i);
    let c = seq![text[i]];
    assert(front + back =~= text);
    lemma_encode_add(front, back);
    assert(encode_utf8(text).skip(at(text, i)) =~= encode_utf8(back));
    assert(text.take(i + 1) =~= front + c);
    lemma_encode_add(front, c);
    reveal_with_fuel(encode_utf8, 2);
    assert(c.drop_first() =~= Seq::<char>::empty());
    assert(encode_utf8(c) =~= encode_scalar(text[i] as u32));
    assert(back =~= c + text.skip(i + 1));
    lemma_encode_add(c, text.skip(i + 1));
    lemma_prefix_is_boundary(text, i + 1);
    char_is_scalar(text[i]);
    lemma_first_byte(text[i]);
    assert(encode_utf8(text)[at(text, i)] == encode_scalar(text[i] as u32)[0]);
}

/// The first byte of a character: its number, where it is an ASCII one.
proof fn lemma_first_byte(c: char)
    ensures
        encode_scalar(c as u32).len() > 0,
        (c as u32) < 0x80 ==> encode_scalar(c as u32) == seq![c as u8],
        (c as u32) >= 0x80 ==> encode_scalar(c as u32)[0] >= 0x80,
{
    char_is_scalar(c);
    let v = c as u32;
    if v < 0x80 {
        assert(v & 0x7f == v) by (bit_vector)
            requires
                v < 0x80,
        ;
        assert(encode_scalar(v) =~= seq![c as u8]);
    } else {
        let two = ((v >> 6) & 0x1f) as u8;
        let three = ((v >> 12) & 0x0f) as u8;
        let four = ((v >> 18) & 0x7) as u8;
        assert(0xc0u8 | two >= 0x80) by (bit_vector);
        assert(0xe0u8 | three >= 0x80) by (bit_vector);
        assert(0xf0u8 | four >= 0x80) by (bit_vector);
    }
}

/// What stands in a text from a position on.
pub(crate) open spec fn stands_at(text: Seq<char>, i: int, part: Seq<char>) -> bool {
    &&& 0 <= i
    &&& i + part.len() <= text.len()
    &&& forall|k: int| 0 <= k < part.len() ==> text[i + k] == #[trigger] part[k]
}

/// White space ends before a character that is none.
proof fn lemma_no_space(text: Seq<char>, i: int)
    requires
        0 <= i < text.len(),
        text[i] != ' ' && text[i] != '\t' && text[i] != '\n' && text[i] != '\r',
    ensures
        behind_space(encode_utf8(text), at(text, i)) == at(text, i),
{
    let c = text[i];
    lemma_at(text, i);
    char_u32_cast(c, c as u32);
    if (c as u32) < 0x80 && is_json_space(c as u8) {
        assert(c as u32 == c as u8);
        assert(c == ' ' || c == '\t' || c == '\n' || c == '\r');
    }
}

/// One space is skipped.
proof fn lemma_one_space(text: Seq<char>, i: int)
    requires
        0 <= i < text.len() - 1,
        text[i] == ' ',
        text[i + 1] != ' ' && text[i + 1] != '\t' && text[i + 1] != '\n' && text[i + 1] != '\r',
    ensures
        behind_space(encode_utf8(text), at(text, i)) == at(text, i + 1),
{
    lemma_at(text, i);
    lemma_no_space(text, i + 1);
}

/// A character of a string is read as it was written.
proof fn lemma_string_char(text: Seq<char>, i: int, c: char)
    requires
        stands_at(text, i, shown_char(c)),
    ensures
        string_char(encode_utf8(text), at(text, i)) == Ok::<
            (Option<char>, int),
            Fault,
        >((Some(c), at(text, i + shown_char(c).len()))),
{
    let b = encode_utf8(text);
    let shown = shown_char(c);
    assert(text[i] == shown[0]);
    lemma_at(text, i);
    char_u32_cast(c, c as u32);
    if c == '"' || c == '\\' {
        assert(text[i + 1] == shown[1]);
        lemma_at(text, i + 1);
    } else if (c as u32) < 0x20 {
        let high = c as u32 as int / 16;
        let low = c as u32 as int % 16;
        assert(text[i + 1] == shown[1]);
        assert(text[i + 2] == shown[2]);
        assert(text[i + 3] == shown[3]);
        assert(text[i + 4] == shown[4]);
        assert(text[i + 5] == shown[5]);
        lemma_at(text, i + 1);
        lemma_at(text, i + 2);
        lemma_at(text, i + 3);
        lemma_at(text, i + 4);
        lemma_at(text, i + 5);
        lemma_hex_char(high);
        lemma_hex_char(low);
        let start = at(text, i + 2);
        assert(hex_number(b, start, 4, 0) == Ok::<(int, int), Fault>(
            (high * 16 + low, start + 4),
        )) by {
            reveal_with_fuel(hex_number, 5);
        }
    } else {
        let rest = text.skip(i);
        assert(rest[0] == c);
        encode_utf8_first_scalar(rest);
    }
}

/// A hexadecimal digit is an ASCII character with its value.
proof fn lemma_hex_char(d: int)
    requires
        0 <= d < 16,
    ensures
        (hex_char(d) as u32) < 0x80,
        hex_digit(hex_char(d) as u8) == Some(d),
{
}

/// A string is read as it was written.
proof fn lemma_string_bytes(text: Seq<char>, map: Map<char, u8>, i: int, key: Seq<char>)
    requires
        stands_at(text, i, shown_chars(key) + seq!['"']),
        forall|k: int| 0 <= k < key.len() ==> map.contains_key(#[trigger] key[k]),
    ensures
        string_bytes(encode_utf8(text), map, at(text, i)) == Ok::<(Seq<u8>, int), Fault>(
            (mapped(map, key), at(text, i + shown_chars(key).len() + 1)),
        ),
    decreases key.len(),
{
    let b = encode_utf8(text);
    let shown = shown_chars(key) + seq!['"'];
    if key.len() == 0 {
        assert(text[i] == shown[0]);
        lemma_at(text, i);
        assert(mapped(map, key) =~= Seq::<u8>::empty());
    } else {
        let c = key[0];
        let rest = key.skip(1);
        let len = shown_char(c).len() as int;
        assert(shown =~= shown_char(c) + (shown_chars(rest) + seq!['"']));
        assert forall|k: int| 0 <= k < len implies text[i + k] == #[trigger] shown_char(c)[k] by {
            assert(shown[k] == shown_char(c)[k]);
        }
        lemma_string_char(text, i, c);
        let tail = shown_chars(rest) + seq!['"'];
        assert forall|k: int| 0 <= k < tail.len() implies text[i + len + k]
            == #[trigger] tail[k] by {
            assert(shown[len + k] == tail[k]);
            assert(text[i + (len + k)] == shown[len + k]);
        }
        assert forall|k: int| 0 <= k < rest.len() implies map.contains_key(#[trigger] rest[k]) by {
            assert(rest[k] == key[k + 1]);
        }
        lemma_string_bytes(text, map, i + len, rest);
        assert(seq![map[c]] + mapped(map, rest) =~= mapped(map, key));
    }
}

/// The bytes of decimal digits give the number. The first is a zero only where it is alone.
pub(crate) proof fn lemma_number(n: nat)
    ensures
        decimal(n).len() > 0,
        forall|k: int| 0 <= k < decimal(n).len() ==> '0' <= #[trigger] decimal(n)[k] <= '9',
        number(encode_utf8(decimal(n))) == n,
        encode_utf8(decimal(n)).len() == decimal(n).len(),
        n == 0 ==> decimal(n).len() == 1,
        n > 0 ==> encode_utf8(decimal(n))[0] != ZERO,
    decreases n,
{
    let d = digit(n % 10);
    lemma_first_byte(d);
    reveal_with_fuel(encode_utf8, 2);
    assert(seq![d].drop_first() =~= Seq::<char>::empty());
    assert(encode_utf8(seq![d]) =~= seq![d as u8]);
    if n < 10 {
        assert(decimal(n) =~= seq![d]);
        assert(seq![d as u8].drop_last() =~= Seq::<u8>::empty());
        reveal_with_fuel(number, 2);
    } else {
        let front = decimal(n / 10);
        lemma_number(n / 10);
        assert(decimal(n) =~= front + seq![d]);
        lemma_encode_add(front, seq![d]);
        let bytes = encode_utf8(decimal(n));
        assert(bytes.drop_last() =~= encode_utf8(front));
        assert(bytes.last() == d as u8);
        assert(bytes[0] == encode_utf8(front)[0]);
    }
}

/// Digits that stand in a text are read up to their end.
pub(crate) proof fn lemma_behind_digits(text: Seq<char>, i: int, digits: Seq<char>)
    requires
        stands_at(text, i, digits),
        i + digits.len() < text.len(),
        forall|k: int| 0 <= k < digits.len() ==> '0' <= #[trigger] digits[k] <= '9',
        !('0' <= text[i + digits.len()] <= '9'),
    ensures
        behind_digits(encode_utf8(text), at(text, i)) == at(text, i + digits.len()),
    decreases digits.len(),
{
    lemma_at(text, i);
    if digits.len() == 0 {
        let c = text[i];
        char_u32_cast(c, c as u32);
        if (c as u32) < 0x80 {
            assert(c as u32 == c as u8);
        }
    }
    if digits.len() > 0 {
        let rest = digits.skip(1);
        assert(text[i] == digits[0]);
        assert forall|k: int| 0 <= k < rest.len() implies '0' <= #[trigger] rest[k] <= '9' by {
            assert(rest[k] == digits[k + 1]);
        }
        assert forall|k: int| 0 <= k < rest.len() implies text[i + 1 + k]
            == #[trigger] rest[k] by {
            assert(text[i + (k + 1)] == digits[k + 1]);
        }
        lemma_behind_digits(text, i + 1, rest);
    }
}

/// A rank is read as it was written.
pub(crate) proof fn lemma_rank_at(text: Seq<char>, i: int, rank: Rank)
    requires
        stands_at(text, i, decimal(rank as nat)),
        i + decimal(rank as nat).len() < text.len(),
        !('0' <= text[i + decimal(rank as nat).len()] <= '9'),
    ensures
        rank_at(encode_utf8(text), at(text, i)) == Ok::<(Rank, int), Fault>(
            (rank, at(text, i + decimal(rank as nat).len())),
        ),
{
    let digits = decimal(rank as nat);
    let b = encode_utf8(text);
    lemma_number(rank as nat);
    lemma_behind_digits(text, i, digits);
    let end = i + digits.len();
    assert(text.take(end) =~= text.take(i) + digits);
    lemma_encode_add(text.take(i), digits);
    assert(text =~= text.take(end) + text.skip(end));
    lemma_encode_add(text.take(end), text.skip(end));
    assert(b.subrange(at(text, i), at(text, end)) =~= encode_utf8(digits));
    assert(b[at(text, i)] == encode_utf8(digits)[0]);
}

/// What stands in a text, stands in it part by part.
pub(crate) proof fn lemma_stands_parts(text: Seq<char>, i: int, front: Seq<char>, back: Seq<char>)
    requires
        stands_at(text, i, front + back),
    ensures
        stands_at(text, i, front),
        stands_at(text, i + front.len(), back),
{
    let whole = front + back;
    assert forall|k: int| 0 <= k < front.len() implies text[i + k] == #[trigger] front[k] by {
        assert(whole[k] == front[k]);
    }
    assert forall|k: int| 0 <= k < back.len() implies text[i + front.len() + k]
        == #[trigger] back[k] by {
        assert(whole[front.len() + k] == back[k]);
        assert(text[i + (front.len() + k)] == whole[front.len() + k]);
    }
}

/// An entry is read as it was written.
proof fn lemma_entry_at(
    text: Seq<char>,
    map: Map<char, u8>,
    pos: int,
    i: int,
    entry: (Seq<char>, Rank),
)
    requires
        behind_space(encode_utf8(text), pos) == at(text, i),
        stands_at(text, i, shown_entry(entry)),
        i + shown_entry(entry).len() < text.len(),
        text[i + shown_entry(entry).len()] == ',' || text[i + shown_entry(entry).len()] == '}',
        forall|k: int| 0 <= k < entry.0.len() ==> map.contains_key(#[trigger] entry.0[k]),
    ensures
        entry_at(encode_utf8(text), map, pos) == Ok::<((Seq<u8>, Rank), int), Fault>(
            ((mapped(map, entry.0), entry.1), at(text, i + shown_entry(entry).len())),
        ),
{
    let b = encode_utf8(text);
    let key = shown_chars(entry.0);
    let digits = decimal(entry.1 as nat);
    let shown = shown_entry(entry);
    lemma_number(entry.1 as nat);
    assert(shown =~= seq!['"'] + ((key + seq!['"']) + (seq![':', ' '] + digits)));
    lemma_stands_parts(text, i, seq!['"'], (key + seq!['"']) + (seq![':', ' '] + digits));
    lemma_stands_parts(text, i + 1, key + seq!['"'], seq![':', ' '] + digits);
    let colon = i + 1 + key.len() + 1;
    lemma_stands_parts(text, colon, seq![':', ' '], digits);
    assert(text[i] == seq!['"'][0]);
    assert(text[colon] == seq![':', ' '][0]);
    assert(text[colon + 1] == seq![':', ' '][1]);
    assert(text[colon + 2 + 0] == digits[0]);
    lemma_at(text, i);
    lemma_string_bytes(text, map, i + 1, entry.0);
    lemma_at(text, colon);
    lemma_no_space(text, colon);
    lemma_one_space(text, colon + 1);
    lemma_rank_at(text, colon + 2, entry.1);
}

/// The entries that are read, each with the bytes of its token.
pub open spec fn read_entries(map: Map<char, u8>, entries: Seq<(Seq<char>, Rank)>) -> Seq<
    (Seq<u8>, Rank),
> {
    Seq::new(entries.len(), |i: int| (mapped(map, entries[i].0), entries[i].1))
}

/// Every character of every token stands for a byte.
pub open spec fn all_mapped(map: Map<char, u8>, entries: Seq<(Seq<char>, Rank)>) -> bool {
    forall|i: int, k: int|
        0 <= i < entries.len() && 0 <= k < entries[i].0.len() ==> map.contains_key(
            #[trigger] entries[i].0[k],
        )
}

/// The entries of an object are read as they were written.
#[verifier::rlimit(40)]
proof fn lemma_listing_from(
    text: Seq<char>,
    map: Map<char, u8>,
    pos: int,
    i: int,
    entries: Seq<(Seq<char>, Rank)>,
)
    requires
        behind_space(encode_utf8(text), pos) == at(text, i),
        entries.len() > 0,
        all_mapped(map, entries),
        stands_at(text, i, shown_entries(entries) + seq!['}']),
        text.len() == i + shown_entries(entries).len() + 1,
    ensures
        listing_from(encode_utf8(text), map, Ok(Some(pos))) == (Listing {
            entries: read_entries(map, entries),
            fault: None,
        }),
    decreases entries.len(),
{
    let b = encode_utf8(text);
    let entry = entries[0];
    let shown = shown_entry(entry);
    let end = i + shown.len();
    assert forall|k: int| 0 <= k < entry.0.len() implies map.contains_key(
        #[trigger] entry.0[k],
    ) by {
        assert(map.contains_key(entries[0].0[k]));
    }
    if entries.len() == 1 {
        lemma_stands_parts(text, i, shown, seq!['}']);
        assert(text[end + 0] == seq!['}'][0]);
        lemma_entry_at(text, map, pos, i, entry);
        lemma_at(text, end);
        lemma_no_space(text, end);
        assert(text.take(end + 1) =~= text);
        assert(behind_space(b, at(text, end + 1)) == b.len());
        assert(next_entry(b, at(text, end)) == Ok::<Option<int>, Fault>(None));
        assert(listing_from(b, map, Ok(None)).entries =~= Seq::<(Seq<u8>, Rank)>::empty());
        assert(read_entries(map, entries) =~= seq![(mapped(map, entry.0), entry.1)]
            + Seq::<(Seq<u8>, Rank)>::empty());
    } else {
        let rest = entries.skip(1);
        let tail = shown_entries(rest) + seq!['}'];
        assert(shown_entries(entries) + seq!['}'] =~= shown + (seq![',', ' '] + tail));
        lemma_stands_parts(text, i, shown, seq![',', ' '] + tail);
        lemma_stands_parts(text, end, seq![',', ' '], tail);
        assert(text[end + 0] == seq![',', ' '][0]);
        assert(text[end + 1] == seq![',', ' '][1]);
        lemma_entry_at(text, map, pos, i, entry);
        lemma_at(text, end);
        lemma_no_space(text, end);
        lemma_starts_with_quote(rest);
        assert(text[end + 2 + 0] == tail[0]);
        lemma_one_space(text, end + 1);
        assert(next_entry(b, at(text, end)) == Ok::<Option<int>, Fault>(Some(at(text, end + 1))));
        assert forall|j: int, k: int|
            0 <= j < rest.len() && 0 <= k < rest[j].0.len() implies map.contains_key(
            #[trigger] rest[j].0[k],
        ) by {
            assert(rest[j] == entries[j + 1]);
            assert(map.contains_key(entries[j + 1].0[k]));
        }
        lemma_listing_from(text, map, at(text, end + 1), end + 2, rest);
        assert(read_entries(map, entries) =~= seq![(mapped(map, entry.0), entry.1)]
            + read_entries(map, rest));
    }
}

/// What is written of entries starts with the quote of the first token.
proof fn lemma_starts_with_quote(entries: Seq<(Seq<char>, Rank)>)
    requires
        entries.len() > 0,
    ensures
        shown_entries(entries).len() > 0,
        shown_entries(entries)[0] == '"',
{
    let shown = shown_entry(entries[0]);
    assert(shown[0] == '"');
    assert(shown_entries(entries)[0] == shown[0]);
}

/// An object that is written down is read back: every entry, in order, and nothing else.
pub proof fn law_object_is_read_back(map: Map<char, u8>, entries: Seq<(Seq<char>, Rank)>)
    requires
        all_mapped(map, entries),
    ensures
        listing(encode_utf8(shown_object(entries)), map) == (Listing {
            entries: read_entries(map, entries),
            fault: None,
        }),
{
    let text = shown_object(entries);
    let b = encode_utf8(text);
    let tail = shown_entries(entries) + seq!['}'];
    encode_utf8_valid_utf8(text);
    assert(text =~= seq!['{'] + tail);
    assert(text[0] == '{');
    assert(text.take(0) =~= Seq::<char>::empty());
    lemma_at(text, 0);
    lemma_no_space(text, 0);
    assert(stands_at(text, 1, tail));
    if entries.len() == 0 {
        assert(tail =~= seq!['}']);
        assert(text[1] == '}');
        lemma_at(text, 1);
        lemma_no_space(text, 1);
        assert(text.take(2) =~= text);
        assert(behind_space(b, at(text, 2)) == b.len());
        assert(first_entry(b) == Ok::<Option<int>, Fault>(None));
        assert(read_entries(map, entries) =~= Seq::<(Seq<u8>, Rank)>::empty());
    } else {
        lemma_starts_with_quote(entries);
        assert(text[1] == tail[0]);
        lemma_at(text, 1);
        lemma_no_space(text, 1);
        assert(first_entry(b) == Ok::<Option<int>, Fault>(Some(at(text, 1))));
        lemma_listing_from(text, map, at(text, 1), 1, entries);
    }
}

} // verus!
