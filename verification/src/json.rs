//! Reading `encoder.json`: a flat object from tokens to ranks.
//!
//! Only that exact shape is accepted, so that anything else is reported as malformed and
//! not silently read as something else.
use vstd::prelude::*;
use vstd::string::*;
use vstd::utf8::*;

use crate::bpe::Rank;
use crate::data_gym::{DataGymByteTable, DataGymError, Fault, malformed, not_mapped};
use crate::order::ranked_tokens;
use crate::outside::{char_of_code, text_of_bytes, utf8_error_text};
use crate::split::{char_len, first_char};
use crate::text::{decimal, push_decimal};

verus! {

/// `"`
pub const QUOTE: u8 = 0x22;

/// `,`
pub const COMMA: u8 = 0x2c;

/// `/`
pub const SLASH: u8 = 0x2f;

/// `0`
pub const ZERO: u8 = 0x30;

/// `:`
pub const COLON: u8 = 0x3a;

/// `\`
pub const BACKSLASH: u8 = 0x5c;

/// `{`
pub const BRACE_OPEN: u8 = 0x7b;

/// `}`
pub const BRACE_CLOSE: u8 = 0x7d;

/// The byte is white space between the parts of an object.
pub open spec fn is_json_space(byte: u8) -> bool {
    byte == 0x20 || byte == 0x09 || byte == 0x0a || byte == 0x0d
}

/// The byte is a decimal digit.
pub open spec fn is_digit(byte: u8) -> bool {
    0x30 <= byte <= 0x39
}

/// The value of a hexadecimal digit.
pub open spec fn hex_digit(byte: u8) -> Option<int> {
    if 0x30 <= byte <= 0x39 {
        Some(byte - 0x30)
    } else if 0x41 <= byte <= 0x46 {
        Some(byte - 0x41 + 10)
    } else if 0x61 <= byte <= 0x66 {
        Some(byte - 0x61 + 10)
    } else {
        None
    }
}

/// The number that decimal digits give.
pub open spec fn number(digits: Seq<u8>) -> nat
    decreases digits.len(),
{
    if digits.len() == 0 {
        0
    } else {
        number(digits.drop_last()) * 10 + (digits.last() - 0x30) as nat
    }
}

/// What is said of a malformed file.
pub open spec fn fault_at(what: Seq<char>, pos: int) -> Fault {
    malformed("malformed encoder.json: "@ + what + " at byte "@ + decimal(pos as nat))
}

/// The position behind the white space at `pos`.
pub open spec fn behind_space(b: Seq<u8>, pos: int) -> int
    decreases b.len() - pos,
{
    if 0 <= pos < b.len() && is_json_space(b[pos]) {
        behind_space(b, pos + 1)
    } else {
        pos
    }
}

/// The position behind a byte that has to stand at `pos`.
pub open spec fn behind_byte(b: Seq<u8>, pos: int, byte: u8, what: Seq<char>) -> Result<
    int,
    Fault,
> {
    if pos < b.len() && b[pos] == byte {
        Ok(pos + 1)
    } else if pos < b.len() || pos == 0 {
        Err(fault_at(what, pos))
    } else {
        Err(fault_at(what, pos - 1))
    }
}

/// The number that `count` hexadecimal digits at `pos` give behind those of `unit`, with
/// the position behind them.
pub open spec fn hex_number(b: Seq<u8>, pos: int, count: nat, unit: int) -> Result<
    (int, int),
    Fault,
>
    decreases count,
{
    if count == 0 {
        Ok((unit, pos))
    } else if pos >= b.len() {
        Err(fault_at("expected four hex digits"@, pos))
    } else {
        match hex_digit(b[pos]) {
            Some(digit) => hex_number(b, pos + 1, (count - 1) as nat, unit * 16 + digit),
            None => Err(fault_at("expected four hex digits"@, pos + 1)),
        }
    }
}

/// The position behind the `\u` that has to stand at `pos`, between two surrogates.
pub open spec fn behind_second_escape(b: Seq<u8>, pos: int) -> Result<int, Fault> {
    let what = "unpaired surrogate escape"@;
    if pos >= b.len() {
        Err(fault_at(what, pos))
    } else if b[pos] != BACKSLASH || pos + 1 >= b.len() {
        Err(fault_at(what, pos + 1))
    } else if b[pos + 1] != 0x75 {
        Err(fault_at(what, pos + 2))
    } else {
        Ok(pos + 2)
    }
}

/// The character of a high surrogate and of the low one whose escape has to stand at
/// `pos`, with the position behind it.
pub open spec fn surrogate_pair(b: Seq<u8>, pos: int, high: int) -> Result<(char, int), Fault> {
    match behind_second_escape(b, pos) {
        Ok(second) => match hex_number(b, second, 4, 0) {
            Ok((low, end)) => if 0xdc00 <= low <= 0xdfff {
                Ok(((0x1_0000 + (high - 0xd800) * 0x400 + (low - 0xdc00)) as char, end))
            } else {
                Err(fault_at("unpaired surrogate escape"@, end))
            },
            Err(fault) => Err(fault),
        },
        Err(fault) => Err(fault),
    }
}

/// The character that a letter behind a backslash stands for.
pub open spec fn short_escape(byte: u8) -> Option<char> {
    if byte == QUOTE {
        Some('"')
    } else if byte == BACKSLASH {
        Some('\\')
    } else if byte == SLASH {
        Some('/')
    } else if byte == 0x62 {
        Some('\u{8}')
    } else if byte == 0x66 {
        Some('\u{c}')
    } else if byte == 0x6e {
        Some('\n')
    } else if byte == 0x72 {
        Some('\r')
    } else if byte == 0x74 {
        Some('\t')
    } else {
        None
    }
}

/// The character whose escape stands behind a backslash, at `pos`, with the position
/// behind it.
pub open spec fn escape(b: Seq<u8>, pos: int) -> Result<(char, int), Fault> {
    if pos >= b.len() {
        Err(fault_at("unterminated escape"@, pos))
    } else if b[pos] == 0x75 {
        match hex_number(b, pos + 1, 4, 0) {
            Ok((unit, end)) => if 0xd800 <= unit <= 0xdbff {
                surrogate_pair(b, end, unit)
            } else if 0xdc00 <= unit <= 0xdfff {
                Err(fault_at("unpaired surrogate escape"@, end))
            } else {
                Ok((unit as char, end))
            },
            Err(fault) => Err(fault),
        }
    } else {
        match short_escape(b[pos]) {
            Some(c) => Ok((c, pos + 1)),
            None => Err(fault_at("unknown escape"@, pos + 1)),
        }
    }
}

/// The character at `pos` in a string, which may be escaped, with the position behind it;
/// `None` for the quote that ends the string.
pub open spec fn string_char(b: Seq<u8>, pos: int) -> Result<(Option<char>, int), Fault> {
    if pos >= b.len() {
        Err(fault_at("unterminated string"@, pos))
    } else if b[pos] == QUOTE {
        Ok((None, pos + 1))
    } else if b[pos] == BACKSLASH {
        match escape(b, pos + 1) {
            Ok((c, end)) => Ok((Some(c), end)),
            Err(fault) => Err(fault),
        }
    } else if b[pos] < 0x20 {
        Err(fault_at("unescaped control character"@, pos))
    } else {
        let rest = b.skip(pos);
        Ok((Some(decode_first_scalar(rest) as char), pos + length_of_first_scalar(rest)))
    }
}

/// The bytes that the characters of a string from `pos` on stand for, with the position
/// behind the quote that ends it.
pub open spec fn string_bytes(b: Seq<u8>, map: Map<char, u8>, pos: int) -> Result<
    (Seq<u8>, int),
    Fault,
>
    decreases
            (if pos <= b.len() {
                b.len() - pos
            } else {
                0
            }),
{
    match string_char(b, pos) {
        Ok((Some(c), end)) => {
            proof {
                lemma_string_char_moves(b, pos);
            }
            if map.contains_key(c) {
                match string_bytes(b, map, end) {
                    Ok((rest, end)) => Ok((seq![map[c]] + rest, end)),
                    Err(fault) => Err(fault),
                }
            } else {
                Err(not_mapped(c))
            }
        },
        Ok((None, end)) => Ok((Seq::empty(), end)),
        Err(fault) => Err(fault),
    }
}

/// Reading hexadecimal digits moves behind them.
proof fn lemma_hex_number_moves(b: Seq<u8>, pos: int, count: nat, unit: int)
    requires
        0 <= unit,
    ensures
        hex_number(b, pos, count, unit) matches Ok((value, end)) ==> end == pos + count && (count
            > 0 ==> end <= b.len()) && 0 <= value,
    decreases count,
{
    if count > 0 && pos < b.len() {
        if let Some(digit) = hex_digit(b[pos]) {
            lemma_hex_number_moves(b, pos + 1, (count - 1) as nat, unit * 16 + digit);
        }
    }
}

/// Reading an escape moves behind it.
proof fn lemma_escape_moves(b: Seq<u8>, pos: int)
    ensures
        escape(b, pos) matches Ok((_, end)) ==> pos < end <= b.len(),
{
    lemma_hex_number_moves(b, pos + 1, 4, 0);
    if let Ok((_, end)) = hex_number(b, pos + 1, 4, 0) {
        if let Ok(second) = behind_second_escape(b, end) {
            lemma_hex_number_moves(b, second, 4, 0);
        }
    }
}

/// Reading a character of a string moves behind it.
pub proof fn lemma_string_char_moves(b: Seq<u8>, pos: int)
    ensures
        string_char(b, pos) matches Ok((_, end)) ==> pos < end,
{
    lemma_escape_moves(b, pos + 1);
}

/// The position behind the decimal digits at `pos`.
pub open spec fn behind_digits(b: Seq<u8>, pos: int) -> int
    decreases b.len() - pos,
{
    if 0 <= pos < b.len() && is_digit(b[pos]) {
        behind_digits(b, pos + 1)
    } else {
        pos
    }
}

/// The rank at `pos`, with the position behind it. A number starts with a zero only where
/// it is zero.
pub open spec fn rank_at(b: Seq<u8>, pos: int) -> Result<(Rank, int), Fault> {
    let end = behind_digits(b, pos);
    if end == pos {
        Err(fault_at("expected a rank"@, pos))
    } else if end > pos + 1 && b[pos] == ZERO {
        Err(fault_at("rank with a leading zero"@, end))
    } else if number(b.subrange(pos, end)) > Rank::MAX {
        Err(fault_at("rank out of range"@, end))
    } else {
        Ok((number(b.subrange(pos, end)) as Rank, end))
    }
}

/// The bytes that the characters of the string at `pos` stand for, with the position
/// behind it.
pub open spec fn string_at(b: Seq<u8>, map: Map<char, u8>, pos: int) -> Result<
    (Seq<u8>, int),
    Fault,
> {
    match behind_byte(b, pos, QUOTE, "expected '\"'"@) {
        Ok(start) => string_bytes(b, map, start),
        Err(fault) => Err(fault),
    }
}

/// The entry at `pos`: the bytes of a token and its rank, with the position behind it.
pub open spec fn entry_at(b: Seq<u8>, map: Map<char, u8>, pos: int) -> Result<
    ((Seq<u8>, Rank), int),
    Fault,
> {
    match string_at(b, map, behind_space(b, pos)) {
        Ok((token, end)) => match behind_byte(b, behind_space(b, end), COLON, "expected ':'"@) {
            Ok(end) => match rank_at(b, behind_space(b, end)) {
                Ok((rank, end)) => Ok(((token, rank), end)),
                Err(fault) => Err(fault),
            },
            Err(fault) => Err(fault),
        },
        Err(fault) => Err(fault),
    }
}

/// Nothing follows the object that ends before `pos`.
pub open spec fn object_end(b: Seq<u8>, pos: int) -> Result<Option<int>, Fault> {
    let end = behind_space(b, pos);
    if end == b.len() {
        Ok(None)
    } else {
        Err(fault_at("expected end of encoder.json"@, end))
    }
}

/// Where the first entry starts, if there is one.
pub open spec fn first_entry(b: Seq<u8>) -> Result<Option<int>, Fault> {
    match behind_byte(b, behind_space(b, 0), BRACE_OPEN, "expected '{'"@) {
        Ok(pos) => {
            let start = behind_space(b, pos);
            if start < b.len() && b[start] == BRACE_CLOSE {
                object_end(b, start + 1)
            } else {
                Ok(Some(start))
            }
        },
        Err(fault) => Err(fault),
    }
}

/// Where the next entry starts, behind one that ends before `pos`, if there is one.
pub open spec fn next_entry(b: Seq<u8>, pos: int) -> Result<Option<int>, Fault> {
    let end = behind_space(b, pos);
    if end >= b.len() {
        Err(fault_at("expected ',' or '}'"@, end))
    } else if b[end] == COMMA {
        Ok(Some(end + 1))
    } else if b[end] == BRACE_CLOSE {
        object_end(b, end + 1)
    } else {
        Err(fault_at("expected ',' or '}'"@, end + 1))
    }
}

/// The entries of an object, up to the end or to where it is malformed.
#[verifier::ext_equal]
pub struct Listing {
    pub entries: Seq<(Seq<u8>, Rank)>,
    pub fault: Option<Fault>,
}

/// The entries from the one on that starts at `start`.
pub open spec fn listing_from(
    b: Seq<u8>,
    map: Map<char, u8>,
    start: Result<Option<int>, Fault>,
) -> Listing
    decreases
            (if start is Ok && start->Ok_0 is Some {
                b.len() - start->Ok_0->0 + 1
            } else {
                0
            }),
{
    match start {
        Ok(Some(pos)) => match entry_at(b, map, pos) {
            Ok((entry, end)) => {
                proof {
                    lemma_entry_moves(b, map, pos);
                    lemma_next_entry_moves(b, end);
                }
                let rest = listing_from(b, map, next_entry(b, end));
                Listing { entries: seq![entry] + rest.entries, fault: rest.fault }
            },
            Err(fault) => Listing { entries: Seq::empty(), fault: Some(fault) },
        },
        Ok(None) => Listing { entries: Seq::empty(), fault: None },
        Err(fault) => Listing { entries: Seq::empty(), fault: Some(fault) },
    }
}

/// What is said of a file that is no text.
pub open spec fn not_utf8(b: Seq<u8>) -> Fault {
    malformed("encoder.json is not valid UTF-8: "@ + utf8_error_text(b))
}

/// The entries of `encoder.json`, up to its end or to where it is malformed.
pub open spec fn listing(b: Seq<u8>, map: Map<char, u8>) -> Listing {
    if valid_utf8(b) {
        listing_from(b, map, first_entry(b))
    } else {
        Listing { entries: Seq::empty(), fault: Some(not_utf8(b)) }
    }
}

/// Skipping white space does not move back, nor behind the end.
proof fn lemma_behind_space_moves(b: Seq<u8>, pos: int)
    ensures
        pos <= behind_space(b, pos),
        pos <= b.len() ==> behind_space(b, pos) <= b.len(),
    decreases b.len() - pos,
{
    if 0 <= pos < b.len() && is_json_space(b[pos]) {
        lemma_behind_space_moves(b, pos + 1);
    }
}

/// Reading a string moves behind it.
proof fn lemma_string_bytes_moves(b: Seq<u8>, map: Map<char, u8>, pos: int)
    ensures
        string_bytes(b, map, pos) matches Ok((_, end)) ==> pos < end <= b.len(),
    decreases
            (if pos <= b.len() {
                b.len() - pos
            } else {
                0
            }),
{
    if let Ok((Some(_), end)) = string_char(b, pos) {
        lemma_string_char_moves(b, pos);
        lemma_string_bytes_moves(b, map, end);
    }
}

/// Skipping digits does not move back, nor behind the end.
proof fn lemma_behind_digits_moves(b: Seq<u8>, pos: int)
    ensures
        pos <= behind_digits(b, pos),
        pos <= b.len() ==> behind_digits(b, pos) <= b.len(),
        forall|i: int| pos <= i < behind_digits(b, pos) ==> is_digit(#[trigger] b[i]),
    decreases b.len() - pos,
{
    if 0 <= pos < b.len() && is_digit(b[pos]) {
        lemma_behind_digits_moves(b, pos + 1);
    }
}

/// Reading an entry moves behind it.
pub proof fn lemma_entry_moves(b: Seq<u8>, map: Map<char, u8>, pos: int)
    ensures
        entry_at(b, map, pos) matches Ok((_, end)) ==> pos < end <= b.len(),
{
    lemma_behind_space_moves(b, pos);
    let start = behind_space(b, pos) + 1;
    lemma_string_bytes_moves(b, map, start);
    if let Ok((_, end)) = string_bytes(b, map, start) {
        lemma_behind_space_moves(b, end);
        let colon = behind_space(b, end);
        lemma_behind_space_moves(b, colon + 1);
        lemma_behind_digits_moves(b, behind_space(b, colon + 1));
    }
}

/// The next entry starts behind the one before it.
pub proof fn lemma_next_entry_moves(b: Seq<u8>, pos: int)
    ensures
        next_entry(b, pos) matches Ok(Some(start)) ==> pos < start <= b.len(),
{
    lemma_behind_space_moves(b, pos);
}

/// Behind a character that starts at `pos`, another one starts or the bytes end.
proof fn lemma_behind_char(b: Seq<u8>, pos: int)
    requires
        valid_utf8(b),
        is_char_boundary(b, pos),
        0 <= pos < b.len(),
    ensures
        valid_first_scalar(b.skip(pos)),
        pos + length_of_first_scalar(b.skip(pos)) <= b.len(),
        is_char_boundary(b, pos + length_of_first_scalar(b.skip(pos))),
{
    let rest = b.subrange(pos, b.len() as int);
    valid_utf8_split(b, pos);
    assert(b.skip(pos) =~= rest);
    let len = length_of_first_scalar(rest);
    assert(is_char_boundary(rest, len)) by {
        reveal_with_fuel(is_char_boundary, 2);
    }
    is_char_boundary_start_end_of_seq(b);
    if pos + len < b.len() {
        is_char_boundary_iff_not_is_continuation_byte(rest, len);
        is_char_boundary_iff_not_is_continuation_byte(b, pos + len);
        assert(rest[len] == b[pos + len]);
    }
}

/// Behind an ASCII character, another one starts or the bytes end.
proof fn lemma_behind_ascii(b: Seq<u8>, pos: int)
    requires
        valid_utf8(b),
        is_char_boundary(b, pos),
        0 <= pos < b.len(),
        b[pos] < 0x80,
    ensures
        is_char_boundary(b, pos + 1),
{
    lemma_behind_char(b, pos);
    assert(b.skip(pos)[0] == b[pos]);
}

/// The bytes of a single character.
proof fn lemma_char_bytes(c: char)
    ensures
        encode_utf8(seq![c]) == encode_scalar(c as u32),
{
    reveal_with_fuel(encode_utf8, 2);
    assert(seq![c].drop_first() =~= Seq::<char>::empty());
    assert(encode_utf8(seq![c]) =~= encode_scalar(seq![c][0] as u32));
}

/// A position in `encoder.json`.
struct JsonScanner<'a> {
    text: &'a str,
    pos: usize,
}

/// The value of a hexadecimal digit.
fn hex_value(byte: u8) -> (digit: Option<u32>)
    ensures
        match digit {
            Some(digit) => hex_digit(byte) == Some(digit as int) && digit < 16,
            None => hex_digit(byte) is None,
        },
{
    if 0x30 <= byte && byte <= 0x39 {
        Some((byte - 0x30) as u32)
    } else if 0x41 <= byte && byte <= 0x46 {
        Some((byte - 0x41 + 10) as u32)
    } else if 0x61 <= byte && byte <= 0x66 {
        Some((byte - 0x61 + 10) as u32)
    } else {
        None
    }
}

/// The character that a letter behind a backslash stands for.
fn short_escape_of(byte: u8) -> (c: Option<char>)
    ensures
        c == short_escape(byte),
{
    match byte {
        QUOTE => Some('"'),
        BACKSLASH => Some('\\'),
        SLASH => Some('/'),
        0x62 => Some('\u{8}'),
        0x66 => Some('\u{c}'),
        0x6e => Some('\n'),
        0x72 => Some('\r'),
        0x74 => Some('\t'),
        _ => None,
    }
}

impl<'a> JsonScanner<'a> {
    /// The bytes of the file.
    spec fn bytes(&self) -> Seq<u8> {
        encode_utf8(self.text@)
    }

    /// The position is at the start of a character or at the end.
    spec fn wf(&self) -> bool {
        &&& valid_utf8(self.bytes())
        &&& self.pos <= self.bytes().len()
        &&& is_char_boundary(self.bytes(), self.pos as int)
    }

    /// The byte at the position.
    fn peek(&self) -> (byte: Option<u8>)
        ensures
            byte == (if self.pos < self.bytes().len() {
                Some(self.bytes()[self.pos as int])
            } else {
                None
            }),
            self.bytes().len() <= usize::MAX,
    {
        let bytes = self.text.as_bytes();
        if self.pos < bytes.len() {
            Some(bytes[self.pos])
        } else {
            None
        }
    }

    /// The byte at the position, which moves behind it.
    fn bump(&mut self) -> (byte: Option<u8>)
        ensures
            final(self).text == old(self).text,
            if old(self).pos < old(self).bytes().len() {
                &&& byte == Some(old(self).bytes()[old(self).pos as int])
                &&& final(self).pos == old(self).pos + 1
            } else {
                &&& byte is None
                &&& final(self).pos == old(self).pos
            },
    {
        let byte = self.peek();
        if byte.is_some() {
            self.pos = self.pos + 1;
        }
        byte
    }

    /// Moves behind white space.
    fn skip_whitespace(&mut self)
        requires
            old(self).wf(),
        ensures
            final(self).wf(),
            final(self).text == old(self).text,
            final(self).pos == behind_space(old(self).bytes(), old(self).pos as int),
    {
        let ghost b = self.bytes();
        loop
            invariant
                self.wf(),
                self.text == old(self).text,
                b == self.bytes(),
                behind_space(b, self.pos as int) == behind_space(b, old(self).pos as int),
            decreases b.len() - self.pos,
        {
            match self.peek() {
                Some(byte) => {
                    if byte != 0x20 && byte != 0x09 && byte != 0x0a && byte != 0x0d {
                        return;
                    }
                    proof {
                        lemma_behind_ascii(b, self.pos as int);
                    }
                    self.pos = self.pos + 1;
                },
                None => return,
            }
        }
    }

    /// An error at the position.
    fn error(&self, what: &str) -> (error: DataGymError)
        ensures
            error@ == fault_at(what@, self.pos as int),
    {
        let mut message = String::from_str("malformed encoder.json: ").concat(what).concat(
            " at byte ",
        );
        push_decimal(&mut message, self.pos as u64);
        DataGymError::malformed(message)
    }

    /// Moves behind a byte that has to stand at the position.
    fn expect(&mut self, byte: u8, what: &str) -> (result: Result<(), DataGymError>)
        requires
            old(self).wf(),
            byte < 0x80,
        ensures
            match behind_byte(old(self).bytes(), old(self).pos as int, byte, what@) {
                Ok(pos) => {
                    &&& result is Ok
                    &&& final(self).wf()
                    &&& final(self).text == old(self).text
                    &&& final(self).pos == pos
                },
                Err(fault) => result is Err && result->Err_0@ == fault,
            },
    {
        proof {
            if self.pos < self.bytes().len() && self.bytes()[self.pos as int] == byte {
                lemma_behind_ascii(self.bytes(), self.pos as int);
            }
        }
        if self.bump() == Some(byte) {
            Ok(())
        } else {
            self.pos = if self.pos > 0 {
                self.pos - 1
            } else {
                0
            };
            Err(self.error(what))
        }
    }

    /// Reads four hexadecimal digits.
    fn read_hex4(&mut self) -> (unit: Result<u32, DataGymError>)
        requires
            old(self).wf(),
        ensures
            match hex_number(old(self).bytes(), old(self).pos as int, 4, 0) {
                Ok((value, end)) => {
                    &&& unit is Ok
                    &&& unit->Ok_0 == value
                    &&& unit->Ok_0 <= 0xffff
                    &&& final(self).wf()
                    &&& final(self).text == old(self).text
                    &&& final(self).pos == end
                },
                Err(fault) => unit is Err && unit->Err_0@ == fault,
            },
    {
        let ghost b = self.bytes();
        let mut unit: u32 = 0;
        let mut i: u32 = 0;
        while i < 4
            invariant
                i <= 4,
                self.wf(),
                self.text == old(self).text,
                b == self.bytes(),
                i == 0 ==> unit == 0,
                i == 1 ==> unit < 0x10,
                i == 2 ==> unit < 0x100,
                i == 3 ==> unit < 0x1000,
                i == 4 ==> unit < 0x1_0000,
                hex_number(b, old(self).pos as int, 4, 0) == hex_number(
                    b,
                    self.pos as int,
                    (4 - i) as nat,
                    unit as int,
                ),
            decreases 4 - i,
        {
            proof {
                if self.pos < b.len() && hex_digit(b[self.pos as int]) is Some {
                    lemma_behind_ascii(b, self.pos as int);
                }
            }
            let digit = match self.bump() {
                Some(byte) => hex_value(byte),
                None => None,
            };
            match digit {
                Some(digit) => unit = unit * 16 + digit,
                None => return Err(self.error("expected four hex digits")),
            }
            i += 1;
        }
        Ok(unit)
    }

    /// Reads the escape of a low surrogate, behind that of a high one.
    fn read_low_surrogate(&mut self, high: u32) -> (c: Result<char, DataGymError>)
        requires
            old(self).wf(),
            0xd800 <= high <= 0xdbff,
        ensures
            match surrogate_pair(old(self).bytes(), old(self).pos as int, high as int) {
                Ok((expected, end)) => {
                    &&& c is Ok
                    &&& c->Ok_0 == expected
                    &&& final(self).wf()
                    &&& final(self).text == old(self).text
                    &&& final(self).pos == end
                },
                Err(fault) => c is Err && c->Err_0@ == fault,
            },
    {
        let ghost b = self.bytes();
        proof {
            if self.pos < b.len() && b[self.pos as int] == BACKSLASH {
                lemma_behind_ascii(b, self.pos as int);
                if self.pos + 1 < b.len() && b[self.pos + 1] == 0x75 {
                    lemma_behind_ascii(b, self.pos + 1);
                }
            }
        }
        if self.bump() != Some(BACKSLASH) {
            return Err(self.error("unpaired surrogate escape"));
        }
        if self.bump() != Some(0x75u8) {
            return Err(self.error("unpaired surrogate escape"));
        }
        let low = match self.read_hex4() {
            Ok(low) => low,
            Err(error) => return Err(error),
        };
        if low < 0xdc00 || 0xdfff < low {
            return Err(self.error("unpaired surrogate escape"));
        }
        let code: u32 = 0x1_0000 + (high - 0xd800) * 0x400 + (low - 0xdc00);
        match char_of_code(code) {
            Some(c) => {
                proof {
                    char_u32_cast(c, code);
                }
                Ok(c)
            },
            None => Err(self.error("invalid surrogate pair")),
        }
    }

    /// Reads the character whose escape stands behind a backslash.
    fn read_escape(&mut self) -> (c: Result<char, DataGymError>)
        requires
            old(self).wf(),
        ensures
            match escape(old(self).bytes(), old(self).pos as int) {
                Ok((expected, end)) => {
                    &&& c is Ok
                    &&& c->Ok_0 == expected
                    &&& final(self).wf()
                    &&& final(self).text == old(self).text
                    &&& final(self).pos == end
                },
                Err(fault) => c is Err && c->Err_0@ == fault,
            },
    {
        let ghost b = self.bytes();
        let ghost start = self.pos as int;
        let byte = match self.bump() {
            Some(byte) => byte,
            None => return Err(self.error("unterminated escape")),
        };
        proof {
            if byte == 0x75 || short_escape(byte) is Some {
                lemma_behind_ascii(b, start);
            }
        }
        if byte != 0x75 {
            return match short_escape_of(byte) {
                Some(c) => Ok(c),
                None => Err(self.error("unknown escape")),
            };
        }
        let unit = match self.read_hex4() {
            Ok(unit) => unit,
            Err(error) => return Err(error),
        };
        if 0xd800 <= unit && unit <= 0xdbff {
            return self.read_low_surrogate(unit);
        }
        if 0xdc00 <= unit && unit <= 0xdfff {
            return Err(self.error("unpaired surrogate escape"));
        }
        match char_of_code(unit) {
            Some(c) => {
                proof {
                    char_u32_cast(c, unit);
                }
                Ok(c)
            },
            None => Err(self.error("invalid escape")),
        }
    }

    /// Reads a character of a string, which may be escaped, or the quote that ends it.
    fn read_char(&mut self) -> (c: Result<Option<char>, DataGymError>)
        requires
            old(self).wf(),
        ensures
            match string_char(old(self).bytes(), old(self).pos as int) {
                Ok((expected, end)) => {
                    &&& c is Ok
                    &&& c->Ok_0 == expected
                    &&& final(self).wf()
                    &&& final(self).text == old(self).text
                    &&& final(self).pos == end
                },
                Err(fault) => c is Err && c->Err_0@ == fault,
            },
    {
        let ghost b = self.bytes();
        let byte = match self.peek() {
            Some(byte) => byte,
            None => return Err(self.error("unterminated string")),
        };
        proof {
            if byte < 0x80 {
                lemma_behind_ascii(b, self.pos as int);
            }
        }
        if byte == QUOTE {
            self.pos = self.pos + 1;
            return Ok(None);
        }
        if byte == BACKSLASH {
            self.pos = self.pos + 1;
            return match self.read_escape() {
                Ok(c) => Ok(Some(c)),
                Err(error) => Err(error),
            };
        }
        if byte < 0x20 {
            return Err(self.error("unescaped control character"));
        }
        let (_, rest) = self.text.split_at(self.pos);
        proof {
            assert(b.skip(self.pos as int) =~= encode_utf8(rest@));
            lemma_behind_char(b, self.pos as int);
            assert(rest@.len() > 0) by {
                if rest@.len() == 0 {
                    assert(encode_utf8(rest@).len() == 0);
                }
            }
            encode_utf8_first_scalar(rest@);
            char_u32_cast(rest@[0], rest@[0] as u32);
            lemma_char_bytes(rest@[0]);
        }
        let c = first_char(rest);
        self.pos = self.pos + char_len(c);
        Ok(Some(c))
    }

    /// Reads a string, and appends the bytes that its characters stand for to `out`.
    fn read_string_as_bytes(&mut self, table: &DataGymByteTable, out: &mut Vec<u8>) -> (result:
        Result<(), DataGymError>)
        requires
            old(self).wf(),
        ensures
            match string_at(old(self).bytes(), table@, old(self).pos as int) {
                Ok((bytes, end)) => {
                    &&& result is Ok
                    &&& final(out)@ == old(out)@ + bytes
                    &&& final(self).wf()
                    &&& final(self).text == old(self).text
                    &&& final(self).pos == end
                },
                Err(fault) => result is Err && result->Err_0@ == fault,
            },
    {
        let ghost b = self.bytes();
        let ghost map = table@;
        match self.expect(QUOTE, "expected '\"'") {
            Ok(()) => {},
            Err(error) => return Err(error),
        }
        let ghost start = self.pos as int;
        assert(string_bytes(b, map, start) == then_bytes(
            Seq::empty(),
            string_bytes(b, map, start),
        )) by {
            if let Ok((bytes, _)) = string_bytes(b, map, start) {
                assert(Seq::<u8>::empty() + bytes =~= bytes);
            }
        }
        let ghost mut read: Seq<u8> = Seq::empty();
        assert(out@ =~= old(out)@ + read);
        loop
            invariant
                self.wf(),
                self.text == old(self).text,
                b == self.bytes(),
                map == table@,
                out@ == old(out)@ + read,
                string_bytes(b, map, start) == then_bytes(
                    read,
                    string_bytes(b, map, self.pos as int),
                ),
                string_at(b, map, old(self).pos as int) == string_bytes(b, map, start),
            decreases b.len() - self.pos,
        {
            let ghost pos = self.pos as int;
            proof {
                lemma_string_char_moves(b, pos);
            }
            match self.read_char() {
                Ok(Some(c)) => {
                    match table.push_byte_of(c, out) {
                        Ok(()) => {},
                        Err(error) => return Err(error),
                    }
                    proof {
                        let rest = string_bytes(b, map, self.pos as int);
                        if let Ok((bytes, _)) = rest {
                            assert(read + (seq![map[c]] + bytes) =~= read.push(map[c]) + bytes);
                        }
                        read = read.push(map[c]);
                        assert(out@ =~= old(out)@ + read);
                    }
                },
                Ok(None) => {
                    assert(read + Seq::<u8>::empty() =~= read);
                    return Ok(());
                },
                Err(error) => return Err(error),
            }
        }
    }

    /// Reads a rank.
    fn read_rank(&mut self) -> (rank: Result<Rank, DataGymError>)
        requires
            old(self).wf(),
        ensures
            match rank_at(old(self).bytes(), old(self).pos as int) {
                Ok((expected, end)) => {
                    &&& rank is Ok
                    &&& rank->Ok_0 == expected
                    &&& final(self).wf()
                    &&& final(self).text == old(self).text
                    &&& final(self).pos == end
                },
                Err(fault) => rank is Err && rank->Err_0@ == fault,
            },
    {
        let ghost b = self.bytes();
        let start = self.pos;
        let mut value: Option<Rank> = Some(0);
        assert(b.subrange(start as int, start as int) =~= Seq::<u8>::empty());
        loop
            invariant_except_break
                behind_digits(b, self.pos as int) == behind_digits(b, start as int),
            invariant
                self.wf(),
                self.text == old(self).text,
                b == self.bytes(),
                start <= self.pos,
                match value {
                    Some(value) => value == number(b.subrange(start as int, self.pos as int)),
                    None => number(b.subrange(start as int, self.pos as int)) > Rank::MAX,
                },
            ensures
                self.pos == behind_digits(b, start as int),
            decreases b.len() - self.pos,
        {
            match self.peek() {
                Some(byte) => {
                    if byte < 0x30 || 0x39 < byte {
                        break;
                    }
                    proof {
                        lemma_behind_ascii(b, self.pos as int);
                        assert(b.subrange(start as int, self.pos + 1).drop_last() =~= b.subrange(
                            start as int,
                            self.pos as int,
                        ));
                    }
                    self.pos = self.pos + 1;
                    value = match value {
                        Some(value) => {
                            let next: u64 = value as u64 * 10 + (byte - 0x30) as u64;
                            if next <= Rank::MAX as u64 {
                                Some(next as Rank)
                            } else {
                                None
                            }
                        },
                        None => None,
                    };
                },
                None => break,
            }
        }
        if self.pos == start {
            return Err(self.error("expected a rank"));
        }
        if self.pos - start > 1 && self.text.as_bytes()[start] == ZERO {
            return Err(self.error("rank with a leading zero"));
        }
        match value {
            Some(value) => Ok(value),
            None => Err(self.error("rank out of range")),
        }
    }

    /// Reads an entry: its rank, and its token into `token`.
    fn read_entry(&mut self, table: &DataGymByteTable, token: &mut Vec<u8>) -> (rank: Result<
        Rank,
        DataGymError,
    >)
        requires
            old(self).wf(),
        ensures
            match entry_at(old(self).bytes(), table@, old(self).pos as int) {
                Ok(((bytes, expected), end)) => {
                    &&& rank is Ok
                    &&& rank->Ok_0 == expected
                    &&& final(token)@ == bytes
                    &&& final(self).wf()
                    &&& final(self).text == old(self).text
                    &&& final(self).pos == end
                },
                Err(fault) => rank is Err && rank->Err_0@ == fault,
            },
    {
        token.clear();
        self.skip_whitespace();
        match self.read_string_as_bytes(table, token) {
            Ok(()) => {},
            Err(error) => return Err(error),
        }
        self.skip_whitespace();
        match self.expect(COLON, "expected ':'") {
            Ok(()) => {},
            Err(error) => return Err(error),
        }
        self.skip_whitespace();
        assert(forall|bytes: Seq<u8>| Seq::<u8>::empty() + bytes =~= bytes);
        self.read_rank()
    }

    /// Says whether the position is at the end, behind the object.
    fn expect_end(&mut self) -> (result: Result<(), DataGymError>)
        requires
            old(self).wf(),
        ensures
            match object_end(old(self).bytes(), old(self).pos as int) {
                Ok(_) => result is Ok,
                Err(fault) => result is Err && result->Err_0@ == fault,
            },
    {
        self.skip_whitespace();
        if self.pos != self.text.as_bytes().len() {
            return Err(self.error("expected end of encoder.json"));
        }
        Ok(())
    }

    /// Moves to the first entry. Says whether there is one.
    fn find_first(&mut self) -> (found: Result<bool, DataGymError>)
        requires
            old(self).wf(),
            old(self).pos == 0,
        ensures
            is_found(first_entry(old(self).bytes()), found, *old(self), *final(self)),
    {
        self.skip_whitespace();
        match self.expect(BRACE_OPEN, "expected '{'") {
            Ok(()) => {},
            Err(error) => return Err(error),
        }
        self.skip_whitespace();
        if self.peek() == Some(BRACE_CLOSE) {
            proof {
                lemma_behind_ascii(self.bytes(), self.pos as int);
            }
            self.pos = self.pos + 1;
            return match self.expect_end() {
                Ok(()) => Ok(false),
                Err(error) => Err(error),
            };
        }
        Ok(true)
    }

    /// Moves to the next entry, behind one. Says whether there is one.
    fn find_next(&mut self) -> (found: Result<bool, DataGymError>)
        requires
            old(self).wf(),
        ensures
            is_found(
                next_entry(old(self).bytes(), old(self).pos as int),
                found,
                *old(self),
                *final(self),
            ),
    {
        self.skip_whitespace();
        let ghost b = self.bytes();
        let ghost pos = self.pos as int;
        proof {
            if pos < b.len() && (b[pos] == COMMA || b[pos] == BRACE_CLOSE) {
                lemma_behind_ascii(b, pos);
            }
        }
        match self.bump() {
            Some(COMMA) => Ok(true),
            Some(BRACE_CLOSE) => match self.expect_end() {
                Ok(()) => Ok(false),
                Err(error) => Err(error),
            },
            _ => Err(self.error("expected ',' or '}'")),
        }
    }
}

/// What is read, followed by what remains.
spec fn then_bytes(read: Seq<u8>, rest: Result<(Seq<u8>, int), Fault>) -> Result<
    (Seq<u8>, int),
    Fault,
> {
    match rest {
        Ok((bytes, end)) => Ok((read + bytes, end)),
        Err(fault) => Err(fault),
    }
}

/// A scanner has moved to where an entry starts, if there is one.
spec fn is_found(
    expected: Result<Option<int>, Fault>,
    found: Result<bool, DataGymError>,
    before: JsonScanner<'_>,
    after: JsonScanner<'_>,
) -> bool {
    match expected {
        Ok(Some(start)) => {
            &&& found is Ok
            &&& found->Ok_0
            &&& after.wf()
            &&& after.text == before.text
            &&& after.pos == start
        },
        Ok(None) => found is Ok && !found->Ok_0,
        Err(fault) => found is Err && found->Err_0@ == fault,
    }
}

/// Reads the entries of `encoder.json` one after the other.
pub(crate) struct EntryReader<'a> {
    scanner: JsonScanner<'a>,
    started: bool,
}

impl<'a> EntryReader<'a> {
    /// The scanner is at the start, or behind an entry.
    pub(crate) closed spec fn wf(&self) -> bool {
        &&& self.scanner.wf()
        &&& !self.started ==> self.scanner.pos == 0
    }

    /// The entries that have not been read yet.
    #[verifier::opaque]
    pub(crate) closed spec fn rest(&self, map: Map<char, u8>) -> Listing {
        let b = self.scanner.bytes();
        listing_from(
            b,
            map,
            if self.started {
                next_entry(b, self.scanner.pos as int)
            } else {
                first_entry(b)
            },
        )
    }

    /// A reader at the start of a file, which has to be a text.
    pub(crate) fn new(contents: &'a [u8]) -> (reader: Result<EntryReader<'a>, DataGymError>)
        ensures
            if valid_utf8(contents@) {
                &&& reader is Ok
                &&& reader->Ok_0.wf()
                &&& forall|map: Map<char, u8>|
                    #[trigger] reader->Ok_0.rest(map) == listing(contents@, map)
            } else {
                reader is Err && reader->Err_0@ == not_utf8(contents@)
            },
    {
        match text_of_bytes(contents) {
            Ok(text) => {
                proof {
                    reveal(EntryReader::rest);
                    is_char_boundary_start_end_of_seq(contents@);
                }
                Ok(EntryReader { scanner: JsonScanner { text, pos: 0 }, started: false })
            },
            Err((_, message)) => {
                let message = String::from_str("encoder.json is not valid UTF-8: ").concat(
                    message.as_str(),
                );
                Err(DataGymError::malformed(message))
            },
        }
    }

    /// Reads the next entry: its rank, and its token into `token`. `None` behind the last.
    pub(crate) fn next(&mut self, table: &DataGymByteTable, token: &mut Vec<u8>) -> (rank: Result<
        Option<Rank>,
        DataGymError,
    >)
        requires
            old(self).wf(),
        ensures
            ({
                let rest = old(self).rest(table@);
                if rest.entries.len() > 0 {
                    &&& rank is Ok
                    &&& rank->Ok_0 == Some(rest.entries[0].1)
                    &&& final(token)@ == rest.entries[0].0
                    &&& final(self).wf()
                    &&& final(self).rest(table@) == (Listing {
                        entries: rest.entries.skip(1),
                        fault: rest.fault,
                    })
                } else {
                    match rest.fault {
                        Some(fault) => rank is Err && rank->Err_0@ == fault,
                        None => rank is Ok && rank->Ok_0 is None,
                    }
                }
            }),
    {
        let ghost rest = self.rest(table@);
        proof {
            reveal(EntryReader::rest);
        }
        let found = if self.started {
            self.scanner.find_next()
        } else {
            self.scanner.find_first()
        };
        match found {
            Ok(true) => {},
            Ok(false) => return Ok(None),
            Err(error) => return Err(error),
        }
        self.started = true;
        match self.scanner.read_entry(table, token) {
            Ok(rank) => {
                proof {
                    let tail = self.rest(table@);
                    assert(rest.entries =~= seq![(token@, rank)] + tail.entries);
                    assert(rest.entries.skip(1) =~= tail.entries);
                }
                Ok(Some(rank))
            },
            Err(error) => Err(error),
        }
    }
}

/// A visitor can be handed each of the entries. Of anything else this says nothing, so it
/// is handed nothing else.
pub open spec fn can_visit<V: FnMut(&[u8], Rank) -> Result<(), DataGymError>>(
    visit: V,
    entries: Seq<(Seq<u8>, Rank)>,
) -> bool {
    forall|i: int, token: &[u8]|
        0 <= i < entries.len() && token@ == (#[trigger] entries[i]).0 ==> #[trigger] call_requires(
            visit,
            (token, entries[i].1),
        )
}

/// A visitor takes an entry that it is handed.
pub open spec fn takes<V: FnMut(&[u8], Rank) -> Result<(), DataGymError>>(
    visit: V,
    entry: (Seq<u8>, Rank),
) -> bool {
    exists|token: &[u8], answer: Result<(), DataGymError>|
        token@ == entry.0 && answer is Ok && #[trigger] call_ensures(
            visit,
            (token, entry.1),
            answer,
        )
}

/// A visitor returns an error for an entry that it is handed.
pub open spec fn refuses<V: FnMut(&[u8], Rank) -> Result<(), DataGymError>>(
    visit: V,
    entry: (Seq<u8>, Rank),
    error: DataGymError,
) -> bool {
    exists|token: &[u8]|
        token@ == entry.0 && #[trigger] call_ensures(visit, (token, entry.1), Err(error))
}

/// A visitor takes the first `count` entries.
pub open spec fn takes_first<V: FnMut(&[u8], Rank) -> Result<(), DataGymError>>(
    visit: V,
    entries: Seq<(Seq<u8>, Rank)>,
    count: int,
) -> bool {
    forall|i: int| 0 <= i < count ==> takes(visit, #[trigger] entries[i])
}

/// What comes of handing the entries of a file to a visitor, in order. The first error ends
/// it: one that the visitor returns, or the fault in the file behind the entries that it
/// has taken.
pub open spec fn is_visited<V: FnMut(&[u8], Rank) -> Result<(), DataGymError>>(
    visit: V,
    listed: Listing,
    result: Result<(), DataGymError>,
) -> bool {
    match result {
        Ok(()) => listed.fault is None && takes_first(
            visit,
            listed.entries,
            listed.entries.len() as int,
        ),
        Err(error) => {
            ||| listed.fault == Some(error@) && takes_first(
                visit,
                listed.entries,
                listed.entries.len() as int,
            )
            ||| exists|count: int|
                0 <= count < listed.entries.len() && #[trigger] takes_first(
                    visit,
                    listed.entries,
                    count,
                ) && refuses(visit, listed.entries[count], error)
        },
    }
}

/// The entries of `encoder.json`, in order, up to its end or to where it is malformed; in
/// that case with the error.
pub fn encoder_json_entries(contents: &[u8], table: &DataGymByteTable) -> (listed: (
    Vec<(Vec<u8>, Rank)>,
    Option<DataGymError>,
))
    ensures
        ranked_tokens(listed.0@) == listing(contents@, table@).entries,
        match listed.1 {
            Some(error) => listing(contents@, table@).fault == Some(error@),
            None => listing(contents@, table@).fault is None,
        },
{
    let ghost listed = listing(contents@, table@);
    let mut entries: Vec<(Vec<u8>, Rank)> = Vec::new();
    assert(ranked_tokens(entries@) =~= Seq::empty());
    let mut reader = match EntryReader::new(contents) {
        Ok(reader) => reader,
        Err(error) => return (entries, Some(error)),
    };
    let ghost mut rest = listed.entries;
    assert(ranked_tokens(entries@) + rest =~= rest);
    loop
        invariant
            listed == listing(contents@, table@),
            reader.wf(),
            reader.rest(table@) == (Listing { entries: rest, fault: listed.fault }),
            ranked_tokens(entries@) + rest == listed.entries,
        decreases rest.len(),
    {
        let ghost before = ranked_tokens(entries@);
        let mut token: Vec<u8> = Vec::new();
        match reader.next(table, &mut token) {
            Ok(Some(rank)) => {
                entries.push((token, rank));
                proof {
                    assert(ranked_tokens(entries@) =~= before.push(rest[0]));
                    assert(before + rest =~= before.push(rest[0]) + rest.skip(1));
                    rest = rest.skip(1);
                }
            },
            Ok(None) => {
                assert(before + rest =~= before);
                return (entries, None);
            },
            Err(error) => {
                assert(before + rest =~= before);
                return (entries, Some(error));
            },
        }
    }
}

/// Hands every entry of `encoder.json` to `visit`, in order. The first error ends it: one
/// that `visit` returns, or one in the file behind the entries that `visit` has taken.
///
/// `visit` is handed entries of the file and nothing else, and the result is tied to answers
/// that it can give. The contract leaves unsaid how often and in which order `visit` is
/// called, and what the calls change that it has captured; `encoder_json_entries` returns
/// the same entries as a list.
pub fn for_each_encoder_json_entry<V: FnMut(&[u8], Rank) -> Result<(), DataGymError>>(
    contents: &[u8],
    table: &DataGymByteTable,
    visit: V,
) -> (result: Result<(), DataGymError>)
    requires
        can_visit(visit, listing(contents@, table@).entries),
    ensures
        is_visited(visit, listing(contents@, table@), result),
{
    let ghost listed = listing(contents@, table@);
    let mut reader = match EntryReader::new(contents) {
        Ok(reader) => reader,
        Err(error) => return Err(error),
    };
    visit_rest(&mut reader, table, visit, Ghost(listed))
}

/// Hands every entry of a reader to `visit`, in order.
fn visit_rest<'a, V: FnMut(&[u8], Rank) -> Result<(), DataGymError>>(
    reader: &mut EntryReader<'a>,
    table: &DataGymByteTable,
    visit: V,
    Ghost(listed): Ghost<Listing>,
) -> (result: Result<(), DataGymError>)
    requires
        can_visit(visit, listed.entries),
        old(reader).wf(),
        old(reader).rest(table@) == listed,
    ensures
        is_visited(visit, listed, result),
{
    let mut handler = visit;
    let ghost mut count: int = 0;
    let mut token: Vec<u8> = Vec::new();
    assert(listed.entries.skip(0) =~= listed.entries);
    loop
        invariant
            can_visit(visit, listed.entries),
            handler == visit,
            reader.wf(),
            0 <= count <= listed.entries.len(),
            reader.rest(table@) == (Listing {
                entries: listed.entries.skip(count),
                fault: listed.fault,
            }),
            takes_first(visit, listed.entries, count),
        decreases listed.entries.len() - count,
    {
        let rank = match reader.next(table, &mut token) {
            Ok(Some(rank)) => rank,
            Ok(None) => return Ok(()),
            Err(error) => return Err(error),
        };
        let key = token.as_slice();
        assert(listed.entries.skip(count)[0] == listed.entries[count]);
        let answer = handler(key, rank);
        proof {
            assert(listed.entries.skip(count).skip(1) =~= listed.entries.skip(count + 1));
        }
        match answer {
            Ok(()) => {
                proof {
                    assert(takes(visit, listed.entries[count]));
                    count = count + 1;
                }
            },
            Err(error) => {
                assert(refuses(visit, listed.entries[count], error));
                return Err(error);
            },
        }
    }
}

} // verus!
