//! The vocabulary files of GPT-2: the characters that stand for bytes, and the merges of
//! `vocab.bpe`.
//!
//! `vocab.bpe` lists merges by priority, and `encoder.json` spells out the same table from
//! tokens to ranks. Both write a token as a text of printable characters, one for each
//! byte.
use vstd::prelude::*;
use vstd::string::*;
use vstd::utf8::char_u32_cast;

use crate::outside::{char_debug, debug_char, debug_str, str_debug};
use crate::split::{Run, cut_first, cut_run, ended_lines, lemma_run_len, run_len, words};

verus! {

/// What is wrong with the vocabulary files.
#[verifier::ext_equal]
pub struct Fault {
    pub message: Seq<char>,
    pub is_mismatch: bool,
}

/// A file is malformed.
pub open spec fn malformed(message: Seq<char>) -> Fault {
    Fault { message, is_mismatch: false }
}

/// The two files describe different tables.
pub open spec fn mismatch(message: Seq<char>) -> Fault {
    Fault { message, is_mismatch: true }
}

/// An error in building the ranks from the vocabulary files of GPT-2: a malformed file, or
/// a table that disagrees with `encoder.json`.
#[derive(Debug, Clone)]
pub struct DataGymError {
    pub message: String,
    /// The two files can be read, but describe different tables.
    pub is_mismatch: bool,
}

impl DataGymError {
    /// What is wrong.
    pub open spec fn view(&self) -> Fault {
        Fault { message: self.message@, is_mismatch: self.is_mismatch }
    }

    /// A file is malformed.
    pub(crate) fn malformed(message: String) -> (error: DataGymError)
        ensures
            error@ == malformed(message@),
    {
        DataGymError { message, is_mismatch: false }
    }

    /// The two files describe different tables.
    pub(crate) fn mismatch(message: String) -> (error: DataGymError)
        ensures
            error@ == mismatch(message@),
    {
        DataGymError { message, is_mismatch: true }
    }

    /// The error as a line of text.
    pub fn to_string(&self) -> (text: String)
        ensures
            text@ == self@.message,
    {
        self.message.clone()
    }
}

/// The number of characters that can stand for a byte.
pub const TABLE_LEN: usize = 512;

/// What the table holds for a character that stands for no byte.
pub const UNMAPPED: u16 = 0xffff;

/// The bytes that characters stand for.
///
/// Every character that is used has a number below `TABLE_LEN`, so a flat table resolves
/// it with one index.
pub struct DataGymByteTable {
    table: Vec<u16>,
}

/// The bytes that the characters of a list of pairs stand for: where one stands in it more
/// than once, the last byte counts. The first character out of range is an error.
pub open spec fn bytes_of_pairs(pairs: Seq<(char, u8)>) -> Result<Map<char, u8>, char>
    decreases pairs.len(),
{
    if pairs.len() == 0 {
        Ok(Map::empty())
    } else {
        match bytes_of_pairs(pairs.drop_last()) {
            Ok(map) => if (pairs.last().0 as u32) < TABLE_LEN {
                Ok(map.insert(pairs.last().0, pairs.last().1))
            } else {
                Err(pairs.last().0)
            },
            Err(c) => Err(c),
        }
    }
}

/// What is said of a character that no table can hold.
pub open spec fn out_of_range(c: char) -> Fault {
    malformed("data gym character "@ + char_debug(c) + " is outside the supported range"@)
}

/// What is said of a character that stands for no byte.
pub open spec fn not_mapped(c: char) -> Fault {
    malformed(char_debug(c) + " is not a data gym character"@)
}

/// The number of characters of a text before the first that stands for no byte.
pub open spec fn mapped_len(map: Map<char, u8>, text: Seq<char>) -> int
    decreases text.len(),
{
    if text.len() > 0 && map.contains_key(text[0]) {
        1 + mapped_len(map, text.skip(1))
    } else {
        0
    }
}

/// The bytes that the characters stand for.
pub open spec fn mapped(map: Map<char, u8>, text: Seq<char>) -> Seq<u8> {
    Seq::new(text.len(), |i: int| map[text[i]])
}

/// Where some of the first characters cannot be mapped, so cannot all of them together.
proof fn lemma_pairs_prefix_fails(pairs: Seq<(char, u8)>, len: int)
    requires
        0 <= len <= pairs.len(),
        bytes_of_pairs(pairs.take(len)) is Err,
    ensures
        bytes_of_pairs(pairs) == bytes_of_pairs(pairs.take(len)),
    decreases pairs.len(),
{
    if len < pairs.len() {
        assert(pairs.drop_last().take(len) =~= pairs.take(len));
        lemma_pairs_prefix_fails(pairs.drop_last(), len);
    } else {
        assert(pairs.take(len) =~= pairs);
    }
}

/// The number of characters before the first that stands for no byte.
proof fn lemma_mapped_ends(map: Map<char, u8>, text: Seq<char>, len: int)
    requires
        0 <= len <= text.len(),
        forall|i: int| 0 <= i < len ==> map.contains_key(#[trigger] text[i]),
        len < text.len() ==> !map.contains_key(text[len]),
    ensures
        mapped_len(map, text) == len,
    decreases len,
{
    if len > 0 {
        let rest = text.skip(1);
        assert forall|i: int| 0 <= i < len - 1 implies map.contains_key(#[trigger] rest[i]) by {
            assert(rest[i] == text[i + 1]);
        }
        assert(map.contains_key(text[0]));
        lemma_mapped_ends(map, rest, len - 1);
    }
}

/// What a flat table says: the characters that stand for a byte, with the byte.
spec fn table_map(table: Seq<u16>) -> Map<char, u8> {
    Map::new(
        |c: char| slot_of(c) < table.len() && table[slot_of(c)] != UNMAPPED,
        |c: char| table[slot_of(c)] as u8,
    )
}

/// The place of a character in a flat table.
spec fn slot_of(c: char) -> int {
    c as u32 as int
}

impl DataGymByteTable {
    /// The table has its length, and holds bytes.
    #[verifier::type_invariant]
    spec fn wf(self) -> bool {
        &&& self.table@.len() == TABLE_LEN
        &&& forall|i: int|
            0 <= i < self.table@.len() ==> (#[trigger] self.table@[i]) == UNMAPPED || self.table@[i]
                < 256
    }

    /// The characters that stand for a byte, with the byte.
    pub closed spec fn view(&self) -> Map<char, u8> {
        table_map(self.table@)
    }

    /// A table with the given characters and bytes.
    pub fn new(mapping: Vec<(char, u8)>) -> (table: Result<DataGymByteTable, DataGymError>)
        ensures
            match bytes_of_pairs(mapping@) {
                Ok(map) => table is Ok && table->Ok_0@ == map,
                Err(c) => table is Err && table->Err_0@ == out_of_range(c),
            },
    {
        let mut table: Vec<u16> = Vec::new();
        let mut i: usize = 0;
        while i < TABLE_LEN
            invariant
                i <= TABLE_LEN,
                table@.len() == i,
                forall|k: int| 0 <= k < i ==> #[trigger] table@[k] == UNMAPPED,
            decreases TABLE_LEN - i,
        {
            table.push(UNMAPPED);
            i += 1;
        }
        assert(table_map(table@) =~= Map::empty());
        let mut i: usize = 0;
        while i < mapping.len()
            invariant
                i <= mapping@.len(),
                table@.len() == TABLE_LEN,
                forall|k: int|
                    0 <= k < table@.len() ==> (#[trigger] table@[k]) == UNMAPPED || table@[k] < 256,
                bytes_of_pairs(mapping@.take(i as int)) == Ok::<Map<char, u8>, char>(
                    table_map(table@),
                ),
            decreases mapping@.len() - i,
        {
            let (c, byte) = mapping[i];
            let slot = c as u32;
            let ghost before = table@;
            proof {
                assert(mapping@.take(i + 1).drop_last() =~= mapping@.take(i as int));
                if slot >= TABLE_LEN {
                    lemma_pairs_prefix_fails(mapping@, i + 1);
                }
            }
            if slot >= TABLE_LEN as u32 {
                let message = String::from_str("data gym character ").concat(
                    debug_char(c).as_str(),
                ).concat(" is outside the supported range");
                return Err(DataGymError::malformed(message));
            }
            table.set(slot as usize, byte as u16);
            proof {
                assert forall|d: char| #[trigger] slot_of(d) == slot implies d == c by {
                    char_u32_cast(c, slot);
                    char_u32_cast(d, slot);
                }
                assert(table_map(table@) =~= table_map(before).insert(c, byte));
            }
            i += 1;
        }
        assert(mapping@.take(i as int) =~= mapping@);
        Ok(DataGymByteTable { table })
    }

    /// Appends the byte that the character stands for to `out`.
    pub(crate) fn push_byte_of(&self, c: char, out: &mut Vec<u8>) -> (result: Result<
        (),
        DataGymError,
    >)
        ensures
            if self@.contains_key(c) {
                result is Ok && final(out)@ == old(out)@.push(self@[c])
            } else {
                result is Err && result->Err_0@ == not_mapped(c) && final(out)@ == old(out)@
            },
    {
        proof {
            use_type_invariant(self);
        }
        let slot = c as u32 as usize;
        if slot < self.table.len() && self.table[slot] != UNMAPPED {
            out.push(self.table[slot] as u8);
            return Ok(());
        }
        let message = debug_char(c).concat(" is not a data gym character");
        Err(DataGymError::malformed(message))
    }

    /// Appends the bytes that the characters of the text stand for to `out`. The first
    /// character that stands for no byte is an error, behind the bytes of those before it.
    pub fn push_decoded(&self, s: &str, out: &mut Vec<u8>) -> (result: Result<(), DataGymError>)
        ensures
            ({
                let len = mapped_len(self@, s@);
                &&& final(out)@ == old(out)@ + mapped(self@, s@.take(len))
                &&& if len == s@.len() {
                    result is Ok
                } else {
                    result is Err && result->Err_0@ == not_mapped(s@[len])
                }
            }),
    {
        let ghost map = self@;
        let ghost before = out@;
        assert(out@ =~= before + mapped(map, s@.take(0)));
        for c in it: s.chars()
            invariant
                map == self@,
                it.seq() == s@,
                0 <= it.index() <= s@.len(),
                forall|i: int| 0 <= i < it.index() ==> map.contains_key(#[trigger] s@[i]),
                out@ == before + mapped(map, s@.take(it.index() as int)),
                before == old(out)@,
        {
            proof {
                if !map.contains_key(c) {
                    lemma_mapped_ends(map, s@, it.index() as int);
                }
            }
            match self.push_byte_of(c, out) {
                Ok(()) => {},
                Err(error) => return Err(error),
            }
            assert(out@ =~= before + mapped(map, s@.take(it.index() + 1)));
        }
        proof {
            lemma_mapped_ends(map, s@, s@.len() as int);
            assert(s@.take(s@.len() as int) =~= s@);
        }
        Ok(())
    }
}

/// What is said of a line that does not hold two halves.
pub open spec fn not_two_halves(line: Seq<char>) -> Fault {
    malformed("expected two merge halves in vocab.bpe line "@ + str_debug(line))
}

/// The two halves of a merge, in a line of `vocab.bpe`.
pub open spec fn halves(line: Seq<char>) -> Result<(Seq<char>, Seq<char>), Fault> {
    if words(line).len() == 2 {
        Ok((words(line)[0], words(line)[1]))
    } else {
        Err(not_two_halves(line))
    }
}

/// The lines of `vocab.bpe` that hold merges: those that a line feed ends, but for the
/// first.
pub open spec fn merge_lines(contents: Seq<char>) -> Seq<Seq<char>> {
    if ended_lines(contents).len() > 0 {
        ended_lines(contents).skip(1)
    } else {
        Seq::empty()
    }
}

/// The merges of a `vocab.bpe` file, by priority.
pub struct DataGymMergePairs<'a> {
    /// What has not been read yet, or `None` behind the last line.
    rest: Option<&'a str>,
}

impl<'a> DataGymMergePairs<'a> {
    /// The lines of merges that have not been read yet.
    pub closed spec fn view(&self) -> Seq<Seq<char>> {
        match self.rest {
            Some(rest) => ended_lines(rest@),
            None => Seq::empty(),
        }
    }

    /// The next merge, or `None` behind the last. A line without exactly two halves is an
    /// error.
    pub fn next(&mut self) -> (pair: Option<Result<(&'a str, &'a str), DataGymError>>)
        ensures
            if old(self)@.len() == 0 {
                pair is None && final(self)@ == old(self)@
            } else {
                &&& final(self)@ == old(self)@.skip(1)
                &&& pair is Some
                &&& match halves(old(self)@[0]) {
                    Ok((first, second)) => pair->0 is Ok && pair->0->Ok_0.0@ == first
                        && pair->0->Ok_0.1@ == second,
                    Err(fault) => pair->0 is Err && pair->0->Err_0@ == fault,
                }
            },
    {
        let rest = match self.rest {
            Some(rest) => rest,
            None => return None,
        };
        match cut_line(rest) {
            Some((line, behind)) => {
                self.rest = Some(behind);
                assert(self@ =~= old(self)@.skip(1));
                Some(split_halves(line))
            },
            None => {
                self.rest = None;
                None
            },
        }
    }
}

/// Cuts a text in two behind its first line feed, which goes with neither part.
fn cut_line<'a>(text: &'a str) -> (parts: Option<(&'a str, &'a str)>)
    ensures
        match parts {
            Some((line, rest)) => ended_lines(text@) == seq![line@] + ended_lines(rest@),
            None => ended_lines(text@) == Seq::<Seq<char>>::empty(),
        },
{
    proof {
        lemma_run_len(Run::Line, text@);
    }
    let (line, behind) = cut_run(text, Run::Line);
    if behind.is_empty() {
        return None;
    }
    let (_, rest) = cut_first(behind);
    assert(rest@ =~= text@.skip(run_len(Run::Line, text@) + 1));
    Some((line, rest))
}

/// The two halves in a line.
fn split_halves<'a>(line: &'a str) -> (pair: Result<(&'a str, &'a str), DataGymError>)
    ensures
        match halves(line@) {
            Ok((first, second)) => pair is Ok && pair->Ok_0.0@ == first && pair->Ok_0.1@ == second,
            Err(fault) => pair is Err && pair->Err_0@ == fault,
        },
{
    if let Some((first, rest)) = cut_word(line) {
        if let Some((second, rest)) = cut_word(rest) {
            if cut_word(rest).is_none() {
                assert(words(line@) =~= seq![first@, second@]);
                return Ok((first, second));
            }
        }
    }
    let message = String::from_str("expected two merge halves in vocab.bpe line ").concat(
        debug_str(line).as_str(),
    );
    Err(DataGymError::malformed(message))
}

/// Cuts the first word off a text.
fn cut_word<'a>(text: &'a str) -> (parts: Option<(&'a str, &'a str)>)
    ensures
        match parts {
            Some((word, rest)) => words(text@) == seq![word@] + words(rest@),
            None => words(text@) == Seq::<Seq<char>>::empty(),
        },
{
    let (_, rest) = cut_run(text, Run::Space);
    proof {
        lemma_run_len(Run::Space, text@);
        lemma_run_len(Run::Word, rest@);
    }
    if rest.is_empty() {
        return None;
    }
    Some(cut_run(rest, Run::Word))
}

/// The merges of a `vocab.bpe` file, by priority: one in each line but for the first,
/// which is the version header. What follows the last line feed is dropped.
pub fn data_gym_merge_pairs(contents: &str) -> (pairs: DataGymMergePairs<'_>)
    ensures
        pairs@ == merge_lines(contents@),
{
    match cut_line(contents) {
        Some((_, rest)) => {
            assert(merge_lines(contents@) =~= ended_lines(rest@));
            DataGymMergePairs { rest: Some(rest) }
        },
        None => DataGymMergePairs { rest: None },
    }
}

} // verus!
