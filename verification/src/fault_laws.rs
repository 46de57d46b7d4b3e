//! What is said of an `encoder.json` that is not an object from tokens to ranks, and where.
use vstd::prelude::*;
use vstd::utf8::*;

use crate::bpe::Rank;
use crate::data_gym::Fault;
use crate::json::{
    Listing, behind_byte, behind_digits, behind_space, entry_at, first_entry, hex_digit, hex_number,
    is_digit, listing, listing_from, next_entry, number, rank_at, string_at, string_bytes,
    string_char,
};
use crate::outside::{char_debug, utf8_error_text};
use crate::text::decimal;

verus! {

/// What is said of a malformed file: what is wrong, and at which byte.
pub open spec fn told_at(what: Seq<char>, pos: int) -> Fault {
    Fault {
        message: "malformed encoder.json: "@ + what + " at byte "@ + decimal(pos as nat),
        is_mismatch: false,
    }
}

/// A byte is an ASCII space, a tab, a line feed or a carriage return.
pub open spec fn is_gap(byte: u8) -> bool {
    byte == 0x20 || byte == 0x09 || byte == 0x0a || byte == 0x0d
}

/// All white space at a position is skipped, and nothing else.
pub proof fn law_gap_is_skipped(b: Seq<u8>, pos: int)
    requires
        0 <= pos <= b.len(),
    ensures
        pos <= behind_space(b, pos) <= b.len(),
        forall|i: int| pos <= i < behind_space(b, pos) ==> is_gap(#[trigger] b[i]),
        behind_space(b, pos) < b.len() ==> !is_gap(b[behind_space(b, pos)]),
    decreases b.len() - pos,
{
    if pos < b.len() && is_gap(b[pos]) {
        law_gap_is_skipped(b, pos + 1);
    }
}

/// All digits at a position are read, and nothing else.
pub proof fn law_digits_are_read(b: Seq<u8>, pos: int)
    requires
        0 <= pos <= b.len(),
    ensures
        pos <= behind_digits(b, pos) <= b.len(),
        forall|i: int| pos <= i < behind_digits(b, pos) ==> 0x30 <= #[trigger] b[i] <= 0x39,
        behind_digits(b, pos) < b.len() ==> !(0x30 <= b[behind_digits(b, pos)] <= 0x39),
    decreases b.len() - pos,
{
    if pos < b.len() && is_digit(b[pos]) {
        law_digits_are_read(b, pos + 1);
    }
}

/// A byte that has to stand at a position is told where it does not: at the position, or at
/// the last byte where the file ends before it.
pub proof fn law_missing_byte_is_told(b: Seq<u8>, pos: int, byte: u8, what: Seq<char>)
    requires
        0 <= pos,
    ensures
        pos < b.len() && b[pos] == byte ==> behind_byte(b, pos, byte, what) == Ok::<int, Fault>(
            pos + 1,
        ),
        pos < b.len() && b[pos] != byte || pos == 0 && b.len() == 0 ==> behind_byte(
            b,
            pos,
            byte,
            what,
        ) == Err::<int, Fault>(told_at(what, pos)),
        pos >= b.len() && pos > 0 ==> behind_byte(b, pos, byte, what) == Err::<int, Fault>(
            told_at(what, pos - 1),
        ),
{
}

/// A rank is told that has no digits, at its place; one that starts with a zero but is not
/// zero, and one that is too great, behind its digits.
pub proof fn law_bad_rank_is_told(b: Seq<u8>, pos: int)
    ensures
        ({
            let end = behind_digits(b, pos);
            let value = number(b.subrange(pos, end));
            &&& end == pos ==> rank_at(b, pos) == Err::<(Rank, int), Fault>(
                told_at("expected a rank"@, pos),
            )
            &&& end > pos + 1 && b[pos] == 0x30 ==> rank_at(b, pos) == Err::<(Rank, int), Fault>(
                told_at("rank with a leading zero"@, end),
            )
            &&& end != pos && !(end > pos + 1 && b[pos] == 0x30) && value > 0xffff_ffff ==> rank_at(
                b,
                pos,
            ) == Err::<(Rank, int), Fault>(told_at("rank out of range"@, end))
            &&& end != pos && !(end > pos + 1 && b[pos] == 0x30) && value <= 0xffff_ffff
                ==> rank_at(b, pos) == Ok::<(Rank, int), Fault>((value as Rank, end))
        }),
{
}

/// In a string are told: its end, where no quote comes before it; a control character; an
/// escape that ends with the file; and one that has no meaning.
pub proof fn law_bad_string_is_told(b: Seq<u8>, pos: int)
    requires
        0 <= pos,
    ensures
        pos >= b.len() ==> string_char(b, pos) == Err::<(Option<char>, int), Fault>(
            told_at("unterminated string"@, pos),
        ),
        pos < b.len() && b[pos] < 0x20 ==> string_char(b, pos) == Err::<
            (Option<char>, int),
            Fault,
        >(told_at("unescaped control character"@, pos)),
        pos + 1 == b.len() && b[pos] == 0x5c ==> string_char(b, pos) == Err::<
            (Option<char>, int),
            Fault,
        >(told_at("unterminated escape"@, pos + 1)),
        pos + 1 < b.len() && b[pos] == 0x5c && !(b[pos + 1] == 0x22 || b[pos + 1] == 0x5c || b[pos
            + 1] == 0x2f || b[pos + 1] == 0x62 || b[pos + 1] == 0x66 || b[pos + 1] == 0x6e || b[pos
            + 1] == 0x72 || b[pos + 1] == 0x74 || b[pos + 1] == 0x75) ==> string_char(b, pos)
            == Err::<(Option<char>, int), Fault>(told_at("unknown escape"@, pos + 2)),
{
}

/// The byte is a hexadecimal digit, in either case.
pub open spec fn is_hex_byte(byte: u8) -> bool {
    0x30 <= byte <= 0x39 || 0x41 <= byte <= 0x46 || 0x61 <= byte <= 0x66
}

/// Of four hexadecimal digits the first that is none is told, behind it, or the end of the
/// file.
pub proof fn law_bad_digit_is_told(b: Seq<u8>, pos: int, k: int)
    requires
        0 <= pos,
        0 <= k < 4,
        forall|i: int|
            pos <= i < pos + k ==> i < b.len() && is_hex_byte(#[trigger] b[i]),
    ensures
        pos + k >= b.len() ==> hex_number(b, pos, 4, 0) == Err::<(int, int), Fault>(
            told_at("expected four hex digits"@, pos + k),
        ),
        pos + k < b.len() && !is_hex_byte(b[pos + k]) ==> hex_number(b, pos, 4, 0) == Err::<
            (int, int),
            Fault,
        >(told_at("expected four hex digits"@, pos + k + 1)),
{
    reveal_with_fuel(hex_number, 5);
    if k > 0 {
        assert(is_hex_byte(b[pos]));
        assert(hex_digit(b[pos]) is Some);
    }
    if k > 1 {
        assert(is_hex_byte(b[pos + 1]));
        assert(hex_digit(b[pos + 1]) is Some);
    }
    if k > 2 {
        assert(is_hex_byte(b[pos + 2]));
        assert(hex_digit(b[pos + 2]) is Some);
    }
}

/// An escape with a bad digit is told by the digit, and one of a surrogate without its
/// other half where that is missed.
pub proof fn law_bad_unit_is_told(b: Seq<u8>, pos: int)
    requires
        0 <= pos,
        pos + 1 < b.len(),
        b[pos] == 0x5c,
        b[pos + 1] == 0x75,
    ensures
        hex_number(b, pos + 2, 4, 0) matches Err(fault) ==> string_char(b, pos) == Err::<
            (Option<char>, int),
            Fault,
        >(fault),
        hex_number(b, pos + 2, 4, 0) matches Ok((unit, end)) ==> {
            let what = "unpaired surrogate escape"@;
            let told = string_char(b, pos);
            &&& 0xdc00 <= unit <= 0xdfff ==> told == Err::<(Option<char>, int), Fault>(
                told_at(what, end),
            )
            &&& 0xd800 <= unit <= 0xdbff ==> {
                &&& end >= b.len() ==> told == Err::<(Option<char>, int), Fault>(told_at(what, end))
                &&& end < b.len() && (b[end] != 0x5c || end + 1 >= b.len()) ==> told == Err::<
                    (Option<char>, int),
                    Fault,
                >(told_at(what, end + 1))
                &&& end + 1 < b.len() && b[end] == 0x5c && b[end + 1] != 0x75 ==> told == Err::<
                    (Option<char>, int),
                    Fault,
                >(told_at(what, end + 2))
                &&& end + 1 < b.len() && b[end] == 0x5c && b[end + 1] == 0x75 ==> (
                match hex_number(b, end + 2, 4, 0) {
                    Err(fault) => told == Err::<(Option<char>, int), Fault>(fault),
                    Ok((low, last)) => !(0xdc00 <= low <= 0xdfff) ==> told == Err::<
                        (Option<char>, int),
                        Fault,
                    >(told_at(what, last)),
                })
            }
        },
{
}

/// The first character of a string that cannot be read, or that stands for no byte, is told.
pub proof fn law_first_bad_character_of_string_is_told(b: Seq<u8>, map: Map<char, u8>, pos: int)
    ensures
        string_char(b, pos) matches Err(fault) ==> string_bytes(b, map, pos) == Err::<
            (Seq<u8>, int),
            Fault,
        >(fault),
        string_char(b, pos) matches Ok((Some(c), end)) ==> {
            &&& !map.contains_key(c) ==> string_bytes(b, map, pos) == Err::<(Seq<u8>, int), Fault>(
                Fault {
                    message: char_debug(c) + " is not a data gym character"@,
                    is_mismatch: false,
                },
            )
            &&& map.contains_key(c) && string_bytes(b, map, end) is Err ==> string_bytes(
                b,
                map,
                pos,
            ) == string_bytes(b, map, end)
        },
{
}

/// Of an entry the first fault is told: in its token, in the colon behind it, or in its
/// rank, with white space between them.
pub proof fn law_first_fault_of_entry_is_told(b: Seq<u8>, map: Map<char, u8>, pos: int)
    ensures
        string_at(b, map, behind_space(b, pos)) matches Err(fault) ==> entry_at(b, map, pos)
            == Err::<((Seq<u8>, Rank), int), Fault>(fault),
        string_at(b, map, behind_space(b, pos)) matches Ok((token, end)) ==> (match behind_byte(
            b,
            behind_space(b, end),
            0x3a,
            "expected ':'"@,
        ) {
            Err(fault) => entry_at(b, map, pos) == Err::<((Seq<u8>, Rank), int), Fault>(fault),
            Ok(colon) => match rank_at(b, behind_space(b, colon)) {
                Err(fault) => entry_at(b, map, pos) == Err::<((Seq<u8>, Rank), int), Fault>(fault),
                Ok((rank, last)) => entry_at(b, map, pos) == Ok::<((Seq<u8>, Rank), int), Fault>(
                    ((token, rank), last),
                ),
            },
        }),
        behind_byte(b, pos, 0x22, "expected '\"'"@) matches Err(fault) ==> string_at(b, map, pos)
            == Err::<(Seq<u8>, int), Fault>(fault),
        behind_byte(b, pos, 0x22, "expected '\"'"@) matches Ok(start) ==> string_at(b, map, pos)
            == string_bytes(b, map, start),
{
}

/// Behind an entry comes a comma or the end of the object, and behind the object nothing
/// but white space; what else stands there is told.
pub proof fn law_bad_end_of_entry_is_told(b: Seq<u8>, pos: int)
    requires
        0 <= pos <= b.len(),
    ensures
        ({
            let end = behind_space(b, pos);
            &&& end == b.len() ==> next_entry(b, pos) == Err::<Option<int>, Fault>(
                told_at("expected ',' or '}'"@, end),
            )
            &&& end < b.len() && b[end] != 0x2c && b[end] != 0x7d ==> next_entry(b, pos) == Err::<
                Option<int>,
                Fault,
            >(told_at("expected ',' or '}'"@, end + 1))
            &&& end < b.len() && b[end] == 0x2c ==> next_entry(b, pos) == Ok::<Option<int>, Fault>(
                Some(end + 1),
            )
            &&& end < b.len() && b[end] == 0x7d ==> {
                let last = behind_space(b, end + 1);
                &&& last == b.len() ==> next_entry(b, pos) == Ok::<Option<int>, Fault>(None)
                &&& last < b.len() ==> next_entry(b, pos) == Err::<Option<int>, Fault>(
                    told_at("expected end of encoder.json"@, last),
                )
            }
        }),
{
    law_gap_is_skipped(b, pos);
    if behind_space(b, pos) < b.len() {
        law_gap_is_skipped(b, behind_space(b, pos) + 1);
    }
}

/// An object starts with an opening brace; what else stands there is told.
pub proof fn law_bad_start_of_object_is_told(b: Seq<u8>)
    ensures
        ({
            let open = behind_space(b, 0);
            &&& behind_byte(b, open, 0x7b, "expected '{'"@) matches Err(fault) ==> first_entry(b)
                == Err::<Option<int>, Fault>(fault)
            &&& behind_byte(b, open, 0x7b, "expected '{'"@) matches Ok(start) ==> {
                let first = behind_space(b, start);
                &&& first < b.len() && b[first] == 0x7d ==> {
                    let last = behind_space(b, first + 1);
                    &&& last == b.len() ==> first_entry(b) == Ok::<Option<int>, Fault>(None)
                    &&& last < b.len() ==> first_entry(b) == Err::<Option<int>, Fault>(
                        told_at("expected end of encoder.json"@, last),
                    )
                }
                &&& !(first < b.len() && b[first] == 0x7d) ==> first_entry(b) == Ok::<
                    Option<int>,
                    Fault,
                >(Some(first))
            }
        }),
{
    law_gap_is_skipped(b, 0);
}

/// The entries are listed in order up to the first fault, which ends the list and is told.
pub proof fn law_entries_up_to_first_fault(b: Seq<u8>, map: Map<char, u8>, pos: int)
    ensures
        entry_at(b, map, pos) matches Err(fault) ==> listing_from(b, map, Ok(Some(pos))) == (
        Listing { entries: Seq::empty(), fault: Some(fault) }),
        entry_at(b, map, pos) matches Ok((entry, end)) ==> {
            let rest = listing_from(b, map, next_entry(b, end));
            let all = listing_from(b, map, Ok(Some(pos)));
            &&& all.fault == rest.fault
            &&& all.entries.len() == rest.entries.len() + 1
            &&& all.entries[0] == entry
            &&& forall|i: int|
                0 <= i < rest.entries.len() ==> all.entries[i + 1] == #[trigger] rest.entries[i]
        },
        listing_from(b, map, Ok(None)) == (Listing { entries: Seq::empty(), fault: None }),
        forall|fault: Fault| #[trigger]
            listing_from(b, map, Err(fault)) == (Listing {
                entries: Seq::empty(),
                fault: Some(fault),
            }),
        valid_utf8(b) ==> listing(b, map) == listing_from(b, map, first_entry(b)),
        !valid_utf8(b) ==> listing(b, map) == (Listing {
            entries: Seq::empty(),
            fault: Some(
                Fault {
                    message: "encoder.json is not valid UTF-8: "@ + utf8_error_text(b),
                    is_mismatch: false,
                },
            ),
        }),
{
}

} // verus!
