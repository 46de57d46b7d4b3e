//! The ranks of the vocabulary of GPT-2, from its two files.
use rustc_hash::FxHashMap;
use vstd::prelude::*;
use vstd::set_lib::lemma_len_subset;
use vstd::slice::*;
use vstd::string::*;
use vstd::utf8::*;

use crate::bpe::{Rank, single_bytes};
use crate::data_gym::{
    DataGymByteTable, DataGymError, Fault, data_gym_merge_pairs, halves, malformed, mapped,
    mapped_len, merge_lines, mismatch, not_mapped,
};
use crate::json::{Listing, encoder_json_entries, listing};
use crate::order::{byte_strings, ranked_tokens};
use crate::tables::{empty_rank_table, rank_count, rank_of, rank_table, set_rank};
use crate::text::{decimal, push_decimal, same_bytes};

verus! {

/// The bytes that the characters of a text stand for.
pub open spec fn bytes_of_text(map: Map<char, u8>, text: Seq<char>) -> Result<Seq<u8>, Fault> {
    let len = mapped_len(map, text);
    if len == text.len() {
        Ok(mapped(map, text))
    } else {
        Err(not_mapped(text[len]))
    }
}

/// The token that the merge in a line of `vocab.bpe` makes.
pub open spec fn merged_token(map: Map<char, u8>, line: Seq<char>) -> Result<Seq<u8>, Fault> {
    match halves(line) {
        Ok((first, second)) => match bytes_of_text(map, first) {
            Ok(front) => match bytes_of_text(map, second) {
                Ok(back) => Ok(front + back),
                Err(fault) => Err(fault),
            },
            Err(fault) => Err(fault),
        },
        Err(fault) => Err(fault),
    }
}

/// The tokens that the merges in the lines of `vocab.bpe` make.
pub open spec fn merged_tokens(map: Map<char, u8>, lines: Seq<Seq<char>>) -> Result<
    Seq<Seq<u8>>,
    Fault,
>
    decreases lines.len(),
{
    if lines.len() == 0 {
        Ok(Seq::empty())
    } else {
        match merged_token(map, lines[0]) {
            Ok(token) => match merged_tokens(map, lines.skip(1)) {
                Ok(rest) => Ok(seq![token] + rest),
                Err(fault) => Err(fault),
            },
            Err(fault) => Err(fault),
        }
    }
}

/// All tokens by rank: those of one byte, and those that merges make.
pub open spec fn all_tokens(
    map: Map<char, u8>,
    singles: Seq<u8>,
    vocab_bpe: Seq<char>,
) -> Result<Seq<Seq<u8>>, Fault> {
    match merged_tokens(map, merge_lines(vocab_bpe)) {
        Ok(merges) => Ok(single_bytes(singles) + merges),
        Err(fault) => Err(fault),
    }
}

/// The place of each token in a list: the last one, where it stands in it more than once.
pub open spec fn places(tokens: Seq<Seq<u8>>) -> Map<Seq<u8>, Rank>
    decreases tokens.len(),
{
    if tokens.len() == 0 {
        Map::empty()
    } else {
        places(tokens.drop_last()).insert(tokens.last(), (tokens.len() - 1) as Rank)
    }
}

/// `encoder.json` also lists special tokens, which no merge makes.
pub open spec fn is_not_mergeable(token: Seq<u8>) -> bool {
    token == encode_utf8("<|endoftext|>"@) || token == encode_utf8("<|startoftext|>"@)
}

/// Numbers in a row, with commas between them.
pub open spec fn comma_separated(bytes: Seq<u8>) -> Seq<char>
    decreases bytes.len(),
{
    if bytes.len() == 0 {
        Seq::empty()
    } else if bytes.len() == 1 {
        decimal(bytes[0] as nat)
    } else {
        comma_separated(bytes.drop_last()) + ", "@ + decimal(bytes.last() as nat)
    }
}

/// Bytes as a list of numbers.
pub open spec fn byte_list(bytes: Seq<u8>) -> Seq<char> {
    "["@ + comma_separated(bytes) + "]"@
}

/// What is said of a token of `encoder.json` that is not in `vocab.bpe`.
pub open spec fn not_produced(token: Seq<u8>, rank: Rank) -> Fault {
    mismatch(
        "encoder.json has token "@ + byte_list(token) + " (rank "@ + decimal(rank as nat)
            + "), which vocab.bpe does not produce"@,
    )
}

/// What is said of a token with different ranks in the two files.
pub open spec fn other_rank(token: Seq<u8>, rank: Rank, own: Rank) -> Fault {
    mismatch(
        "encoder.json ranks token "@ + byte_list(token) + " "@ + decimal(rank as nat)
            + ", vocab.bpe ranks it "@ + decimal(own as nat),
    )
}

/// What is said where `encoder.json` does not list every token.
pub open spec fn other_count(produced: nat, listed: nat) -> Fault {
    mismatch(
        "vocab.bpe produces "@ + decimal(produced) + " tokens, encoder.json lists "@ + decimal(
            listed,
        ),
    )
}

/// How far the two files have been held against each other.
#[verifier::ext_equal]
pub struct Check {
    /// The ranks of the tokens.
    pub ranks: Seq<Rank>,
    /// The tokens that are listed, but for special tokens.
    pub listed: Set<Seq<u8>>,
}

/// Holds an entry of `encoder.json` against the tokens. With `clobber`, the rank of a token
/// of one byte is taken from the entry.
pub open spec fn check_entry(
    index: Map<Seq<u8>, Rank>,
    clobber: bool,
    check: Check,
    entry: (Seq<u8>, Rank),
) -> Result<Check, Fault> {
    let (token, rank) = entry;
    let place = index[token] as int;
    if is_not_mergeable(token) {
        Ok(check)
    } else if !index.contains_key(token) {
        Err(not_produced(token, rank))
    } else if clobber && token.len() == 1 {
        Ok(Check { ranks: check.ranks.update(place, rank), listed: check.listed.insert(token) })
    } else if check.ranks[place] != rank {
        Err(other_rank(token, rank, check.ranks[place]))
    } else {
        Ok(Check { ranks: check.ranks, listed: check.listed.insert(token) })
    }
}

/// Holds the entries of `encoder.json` against the tokens, in order.
pub open spec fn check_entries(
    index: Map<Seq<u8>, Rank>,
    clobber: bool,
    check: Check,
    entries: Seq<(Seq<u8>, Rank)>,
) -> Result<Check, Fault>
    decreases entries.len(),
{
    if entries.len() == 0 {
        Ok(check)
    } else {
        match check_entry(index, clobber, check, entries[0]) {
            Ok(next) => check_entries(index, clobber, next, entries.skip(1)),
            Err(fault) => Err(fault),
        }
    }
}

/// Nothing has been checked yet: the rank of each token is its place.
pub open spec fn unchecked(count: nat) -> Check {
    Check {
        ranks: Seq::new(count, |i: int| i as Rank),
        listed: Set::empty(),
    }
}

/// The rank that `encoder.json` lists for each token: the last one, where it lists a token
/// more than once.
pub open spec fn listed_ranks(entries: Seq<(Seq<u8>, Rank)>) -> Map<Seq<u8>, Rank>
    decreases entries.len(),
{
    if entries.len() == 0 {
        Map::empty()
    } else {
        listed_ranks(entries.drop_last()).insert(entries.last().0, entries.last().1)
    }
}

/// The entries, each with the rank that is listed for its token.
pub open spec fn settled(entries: Seq<(Seq<u8>, Rank)>) -> Seq<(Seq<u8>, Rank)> {
    Seq::new(entries.len(), |i: int| (entries[i].0, listed_ranks(entries)[entries[i].0]))
}

/// The ranks that come of holding `encoder.json` against the tokens: it has to be well
/// formed, and to list every token.
pub open spec fn checked_ranks(
    tokens: Seq<Seq<u8>>,
    listed: Listing,
    clobber: bool,
) -> Result<Seq<Rank>, Fault> {
    let index = places(tokens);
    let produced = index.dom().len();
    match listed.fault {
        Some(fault) => Err(fault),
        None => match check_entries(
            index,
            clobber,
            unchecked(tokens.len()),
            settled(listed.entries),
        ) {
            Ok(check) => if check.listed.len() != produced {
                Err(other_count(produced, check.listed.len()))
            } else {
                Ok(check.ranks)
            },
            Err(fault) => Err(fault),
        },
    }
}

/// The tokens of the vocabulary of GPT-2 with their ranks.
pub open spec fn mergeable_ranks(
    map: Map<char, u8>,
    singles: Seq<u8>,
    vocab_bpe: Seq<char>,
    encoder_json: Seq<u8>,
    clobber: bool,
) -> Result<Seq<(Seq<u8>, Rank)>, Fault> {
    match all_tokens(map, singles, vocab_bpe) {
        Ok(tokens) => if tokens.len() > 0x1_0000_0000 {
            Err(malformed("too many tokens for a 32-bit rank"@))
        } else {
            match checked_ranks(tokens, listing(encoder_json, map), clobber) {
                Ok(ranks) => Ok(Seq::new(tokens.len(), |i: int| (tokens[i], ranks[i]))),
                Err(fault) => Err(fault),
            }
        },
        Err(fault) => Err(fault),
    }
}

/// Appends bytes as a list of numbers to `out`.
fn push_byte_list(out: &mut String, bytes: &[u8])
    ensures
        final(out)@ == old(out)@ + byte_list(bytes@),
{
    out.append("[");
    let ghost before = out@;
    assert(out@ =~= before + comma_separated(bytes@.take(0)));
    let mut i: usize = 0;
    while i < bytes.len()
        invariant
            i <= bytes@.len(),
            before == old(out)@ + "["@,
            out@ == before + comma_separated(bytes@.take(i as int)),
        decreases bytes@.len() - i,
    {
        if i > 0 {
            out.append(", ");
        }
        push_decimal(out, bytes[i] as u64);
        i += 1;
        proof {
            let taken = bytes@.take(i as int);
            assert(taken.drop_last() =~= bytes@.take(i - 1));
            assert(taken.last() == bytes@[i - 1]);
            assert(out@ =~= before + comma_separated(taken));
        }
    }
    assert(bytes@.take(i as int) =~= bytes@);
    out.append("]");
    assert(out@ =~= old(out)@ + byte_list(bytes@));
}

/// What is said of a token of `encoder.json` that is not in `vocab.bpe`.
fn not_produced_error(token: &[u8], rank: Rank) -> (error: DataGymError)
    ensures
        error@ == not_produced(token@, rank),
{
    let mut message = String::from_str("encoder.json has token ");
    push_byte_list(&mut message, token);
    message.append(" (rank ");
    push_decimal(&mut message, rank as u64);
    message.append("), which vocab.bpe does not produce");
    DataGymError::mismatch(message)
}

/// What is said of a token with different ranks in the two files.
fn other_rank_error(token: &[u8], rank: Rank, own: Rank) -> (error: DataGymError)
    ensures
        error@ == other_rank(token@, rank, own),
{
    let mut message = String::from_str("encoder.json ranks token ");
    push_byte_list(&mut message, token);
    message.append(" ");
    push_decimal(&mut message, rank as u64);
    message.append(", vocab.bpe ranks it ");
    push_decimal(&mut message, own as u64);
    DataGymError::mismatch(message)
}

/// What is said where `encoder.json` does not list every token.
fn other_count_error(produced: usize, listed: usize) -> (error: DataGymError)
    ensures
        error@ == other_count(produced as nat, listed as nat),
{
    let mut message = String::from_str("vocab.bpe produces ");
    push_decimal(&mut message, produced as u64);
    message.append(" tokens, encoder.json lists ");
    push_decimal(&mut message, listed as u64);
    DataGymError::mismatch(message)
}

/// Whether no merge makes the token.
fn not_mergeable(token: &[u8]) -> (is: bool)
    ensures
        is == is_not_mergeable(token@),
{
    same_bytes(token, "<|endoftext|>".as_bytes()) || same_bytes(
        token,
        "<|startoftext|>".as_bytes(),
    )
}

/// The bytes that the characters of a text stand for, appended to `out`.
fn append_text(table: &DataGymByteTable, text: &str, out: &mut Vec<u8>) -> (result: Result<
    (),
    DataGymError,
>)
    ensures
        match bytes_of_text(table@, text@) {
            Ok(bytes) => result is Ok && final(out)@ == old(out)@ + bytes,
            Err(fault) => result is Err && result->Err_0@ == fault,
        },
{
    let result = table.push_decoded(text, out);
    proof {
        if mapped_len(table@, text@) == text@.len() {
            assert(text@.take(text@.len() as int) =~= text@);
        }
    }
    result
}

/// The tokens that come behind those that are known.
spec fn behind_tokens(known: Seq<Seq<u8>>, rest: Result<Seq<Seq<u8>>, Fault>) -> Result<
    Seq<Seq<u8>>,
    Fault,
> {
    match rest {
        Ok(rest) => Ok(known + rest),
        Err(fault) => Err(fault),
    }
}

/// All tokens by rank: those of one byte, and those that merges make.
fn collect_tokens(table: &DataGymByteTable, singles: &[u8], vocab_bpe: &str) -> (tokens: Result<
    Vec<Vec<u8>>,
    DataGymError,
>)
    ensures
        match all_tokens(table@, singles@, vocab_bpe@) {
            Ok(expected) => tokens is Ok && byte_strings(tokens->Ok_0@) == expected,
            Err(fault) => tokens is Err && tokens->Err_0@ == fault,
        },
{
    let ghost map = table@;
    let ghost expected = all_tokens(map, singles@, vocab_bpe@);
    let mut tokens: Vec<Vec<u8>> = Vec::new();
    let mut i: usize = 0;
    while i < singles.len()
        invariant
            i <= singles@.len(),
            byte_strings(tokens@) == single_bytes(singles@).take(i as int),
        decreases singles@.len() - i,
    {
        let ghost before = byte_strings(tokens@);
        let single: Vec<u8> = vec![singles[i]];
        assert(single@ =~= single_bytes(singles@)[i as int]);
        tokens.push(single);
        i += 1;
        assert(byte_strings(tokens@) =~= before.push(single_bytes(singles@)[i - 1]));
        assert(byte_strings(tokens@) =~= single_bytes(singles@).take(i as int));
    }
    assert(single_bytes(singles@).take(i as int) =~= single_bytes(singles@));
    let mut pairs = data_gym_merge_pairs(vocab_bpe);
    assert(expected == behind_tokens(byte_strings(tokens@), merged_tokens(map, pairs@)));
    loop
        invariant
            map == table@,
            expected == all_tokens(map, singles@, vocab_bpe@),
            expected == behind_tokens(byte_strings(tokens@), merged_tokens(map, pairs@)),
        decreases pairs@.len(),
    {
        let ghost lines = pairs@;
        let ghost before = byte_strings(tokens@);
        let (first, second) = match pairs.next() {
            Some(Ok(pair)) => pair,
            Some(Err(error)) => return Err(error),
            None => {
                assert(before + Seq::<Seq<u8>>::empty() =~= before);
                return Ok(tokens);
            },
        };
        let mut merged: Vec<u8> = Vec::new();
        match append_text(table, first, &mut merged) {
            Ok(()) => {},
            Err(error) => return Err(error),
        }
        match append_text(table, second, &mut merged) {
            Ok(()) => {},
            Err(error) => return Err(error),
        }
        let ghost token = merged@;
        tokens.push(merged);
        proof {
            assert(merged_token(map, lines[0])->Ok_0 =~= token);
            assert(byte_strings(tokens@) =~= before.push(token));
            if let Ok(rest) = merged_tokens(map, lines.skip(1)) {
                assert(before + (seq![token] + rest) =~= before.push(token) + rest);
            }
        }
    }
}

/// Where a token stands in the index, it stands in the list.
pub proof fn lemma_places(tokens: Seq<Seq<u8>>)
    requires
        tokens.len() <= 0x1_0000_0000,
    ensures
        places(tokens).dom().finite(),
        places(tokens).dom().len() <= tokens.len(),
        forall|token: Seq<u8>| #[trigger]
            places(tokens).contains_key(token) ==> places(tokens)[token] < tokens.len()
                && tokens[places(tokens)[token] as int] == token,
    decreases tokens.len(),
{
    if tokens.len() > 0 {
        lemma_places(tokens.drop_last());
    }
}

/// The place of each token.
fn index_tokens(tokens: &Vec<Vec<u8>>) -> (index: FxHashMap<Vec<u8>, Rank>)
    requires
        tokens@.len() <= 0x1_0000_0000,
    ensures
        rank_table(index) == places(byte_strings(tokens@)),
{
    let ghost list = byte_strings(tokens@);
    let mut index = empty_rank_table();
    assert(rank_table(index) =~= places(list.take(0)));
    let mut i: usize = 0;
    while i < tokens.len()
        invariant
            tokens@.len() <= 0x1_0000_0000,
            list == byte_strings(tokens@),
            i <= tokens@.len(),
            rank_table(index) == places(list.take(i as int)),
        decreases tokens@.len() - i,
    {
        set_rank(&mut index, slice_to_vec(tokens[i].as_slice()), i as Rank);
        i += 1;
        assert(list.take(i as int).drop_last() =~= list.take(i - 1));
    }
    assert(list.take(i as int) =~= list);
    index
}

/// The ranks of the tokens, as far as `encoder.json` has been held against them.
struct Checker {
    ranks: Vec<Rank>,
    /// Which of the places have been listed.
    seen: Vec<bool>,
    distinct: usize,
}

impl Checker {
    /// How far the two files have been held against each other.
    spec fn is_at(&self, tokens: Seq<Seq<u8>>, check: Check) -> bool {
        &&& self.ranks@ == check.ranks
        &&& self.ranks@.len() == tokens.len()
        &&& self.seen@.len() == tokens.len()
        &&& self.distinct == check.listed.len()
        &&& check.listed.finite()
        &&& check.listed.subset_of(places(tokens).dom())
        &&& forall|token: Seq<u8>| #[trigger]
            places(tokens).contains_key(token) ==> self.seen@[places(tokens)[token] as int]
                == check.listed.contains(token)
    }

    /// Nothing has been checked yet.
    fn new(tokens: &Vec<Vec<u8>>) -> (checker: Checker)
        requires
            tokens@.len() <= 0x1_0000_0000,
        ensures
            checker.is_at(byte_strings(tokens@), unchecked(tokens@.len())),
    {
        let mut ranks: Vec<Rank> = Vec::new();
        let mut seen: Vec<bool> = Vec::new();
        let mut i: usize = 0;
        while i < tokens.len()
            invariant
                tokens@.len() <= 0x1_0000_0000,
                i <= tokens@.len(),
                ranks@ == unchecked(i as nat).ranks,
                seen@.len() == i,
                forall|k: int| 0 <= k < i ==> !(#[trigger] seen@[k]),
            decreases tokens@.len() - i,
        {
            ranks.push(i as Rank);
            seen.push(false);
            i += 1;
            assert(ranks@ =~= unchecked(i as nat).ranks);
        }
        proof {
            lemma_places(byte_strings(tokens@));
        }
        Checker { ranks, seen, distinct: 0 }
    }

    /// Holds an entry of `encoder.json` against the tokens.
    fn check(
        &mut self,
        index: &FxHashMap<Vec<u8>, Rank>,
        clobber: bool,
        token: &[u8],
        rank: Rank,
        Ghost(tokens): Ghost<Seq<Seq<u8>>>,
        Ghost(check): Ghost<Check>,
    ) -> (result: Result<(), DataGymError>)
        requires
            tokens.len() <= 0x1_0000_0000,
            rank_table(*index) == places(tokens),
            old(self).is_at(tokens, check),
        ensures
            match check_entry(places(tokens), clobber, check, (token@, rank)) {
                Ok(next) => {
                    &&& result is Ok
                    &&& final(self).is_at(tokens, next)
                },
                Err(fault) => result is Err && result->Err_0@ == fault,
            },
    {
        proof {
            lemma_places(tokens);
        }
        if not_mergeable(token) {
            return Ok(());
        }
        let place = match rank_of(index, token) {
            Some(place) => place as usize,
            None => return Err(not_produced_error(token, rank)),
        };
        assert(places(tokens).contains_key(token@));
        if clobber && token.len() == 1 {
            self.ranks.set(place, rank);
        } else if self.ranks[place] != rank {
            return Err(other_rank_error(token, rank, self.ranks[place]));
        }
        if !self.seen[place] {
            proof {
                let listed = check.listed.insert(token@);
                assert(listed.subset_of(places(tokens).dom()));
                lemma_len_subset(listed, places(tokens).dom());
                assert(self.seen.len() == tokens.len());
            }
            self.seen.set(place, true);
            self.distinct = self.distinct + 1;
        }
        proof {
            let listed = check.listed.insert(token@);
            assert forall|other: Seq<u8>| #[trigger]
                places(tokens).contains_key(other) implies self.seen@[places(tokens)[other] as int]
                == listed.contains(other) by {
                if places(tokens)[other] == place {
                    assert(other == token@);
                }
            }
        }
        Ok(())
    }
}

/// The rank that is listed for each token.
fn collect_listed(entries: &Vec<(Vec<u8>, Rank)>) -> (table: FxHashMap<Vec<u8>, Rank>)
    ensures
        rank_table(table) == listed_ranks(ranked_tokens(entries@)),
        forall|i: int|
            0 <= i < entries@.len() ==> rank_table(table).contains_key(
                (#[trigger] entries@[i]).0@,
            ),
{
    let ghost list = ranked_tokens(entries@);
    let mut table = empty_rank_table();
    assert(rank_table(table) =~= listed_ranks(list.take(0)));
    let mut i: usize = 0;
    while i < entries.len()
        invariant
            list == ranked_tokens(entries@),
            i <= entries@.len(),
            rank_table(table) == listed_ranks(list.take(i as int)),
            forall|k: int|
                0 <= k < i ==> rank_table(table).contains_key((#[trigger] entries@[k]).0@),
        decreases entries@.len() - i,
    {
        set_rank(&mut table, slice_to_vec(entries[i].0.as_slice()), entries[i].1);
        i += 1;
        assert(list.take(i as int).drop_last() =~= list.take(i - 1));
    }
    assert(list.take(i as int) =~= list);
    table
}

/// Holds `encoder.json` against the tokens, and returns their ranks.
fn check_tokens(
    table: &DataGymByteTable,
    tokens: &Vec<Vec<u8>>,
    encoder_json: &[u8],
    clobber: bool,
) -> (ranks: Result<Vec<Rank>, DataGymError>)
    requires
        tokens@.len() <= 0x1_0000_0000,
    ensures
        match checked_ranks(
            byte_strings(tokens@),
            listing(encoder_json@, table@),
            clobber,
        ) {
            Ok(expected) => ranks is Ok && ranks->Ok_0@ == expected && expected.len()
                == tokens@.len(),
            Err(fault) => ranks is Err && ranks->Err_0@ == fault,
        },
{
    let ghost list = byte_strings(tokens@);
    let (entries, error) = encoder_json_entries(encoder_json, table);
    if let Some(error) = error {
        return Err(error);
    }
    let ghost all = settled(ranked_tokens(entries@));
    let listed = collect_listed(&entries);
    let index = index_tokens(tokens);
    let mut checker = Checker::new(tokens);
    let ghost mut check = unchecked(tokens@.len());
    assert(all.skip(0) =~= all);
    let mut i: usize = 0;
    while i < entries.len()
        invariant
            i <= entries@.len(),
            tokens@.len() <= 0x1_0000_0000,
            list == byte_strings(tokens@),
            all == settled(ranked_tokens(entries@)),
            rank_table(listed) == listed_ranks(ranked_tokens(entries@)),
            forall|k: int|
                0 <= k < entries@.len() ==> rank_table(listed).contains_key(
                    (#[trigger] entries@[k]).0@,
                ),
            rank_table(index) == places(list),
            checker.is_at(list, check),
            listing(encoder_json@, table@).fault is None,
            listing(encoder_json@, table@).entries == ranked_tokens(entries@),
            check_entries(places(list), clobber, check, all.skip(i as int)) == check_entries(
                places(list),
                clobber,
                unchecked(tokens@.len()),
                all,
            ),
        decreases entries@.len() - i,
    {
        let token = entries[i].0.as_slice();
        assert(rank_table(listed).contains_key(entries@[i as int].0@));
        let rank = rank_of(&listed, token).unwrap();
        proof {
            assert(all.skip(i as int)[0] == all[i as int]);
            assert(all[i as int] == (token@, rank));
            assert(all.skip(i as int).skip(1) =~= all.skip(i + 1));
        }
        match checker.check(&index, clobber, token, rank, Ghost(list), Ghost(check)) {
            Ok(()) => {
                proof {
                    check = check_entry(places(list), clobber, check, all[i as int])->Ok_0;
                }
            },
            Err(error) => return Err(error),
        }
        i += 1;
    }
    assert(all.skip(i as int).len() == 0);
    let produced = rank_count(&index);
    if checker.distinct != produced {
        return Err(other_count_error(produced, checker.distinct));
    }
    Ok(checker.ranks)
}

/// The tokens of the vocabulary of GPT-2 with their ranks.
///
/// `single_bytes` are the tokens of one byte by rank, and `vocab_bpe` is the contents of
/// `vocab.bpe`: together they define every token and its rank. `encoder_json` is then held
/// against them as a map, in which the last entry of a token counts, since encoding relies
/// on ranks that are ordered by merge priority. With
/// `clobber_one_byte_tokens`, the ranks of tokens of one byte are taken from
/// `encoder_json`.
pub fn data_gym_mergeable_ranks(
    table: &DataGymByteTable,
    single_bytes: &[u8],
    vocab_bpe: &str,
    encoder_json: &[u8],
    clobber_one_byte_tokens: bool,
) -> (ranks: Result<Vec<(Vec<u8>, Rank)>, DataGymError>)
    ensures
        match mergeable_ranks(
            table@,
            single_bytes@,
            vocab_bpe@,
            encoder_json@,
            clobber_one_byte_tokens,
        ) {
            Ok(expected) => ranks is Ok && ranked_tokens(ranks->Ok_0@) == expected,
            Err(fault) => ranks is Err && ranks->Err_0@ == fault,
        },
{
    let tokens = match collect_tokens(table, single_bytes, vocab_bpe) {
        Ok(tokens) => tokens,
        Err(error) => return Err(error),
    };
    if tokens.len() as u64 > 0x1_0000_0000 {
        let message = String::from_str("too many tokens for a 32-bit rank");
        return Err(DataGymError::malformed(message));
    }
    let ranks = match check_tokens(table, &tokens, encoder_json, clobber_one_byte_tokens) {
        Ok(ranks) => ranks,
        Err(error) => return Err(error),
    };
    let ghost list = byte_strings(tokens@);
    let mut ranked: Vec<(Vec<u8>, Rank)> = Vec::new();
    let mut i: usize = 0;
    while i < tokens.len()
        invariant
            i <= tokens@.len(),
            ranks@.len() == tokens@.len(),
            list == byte_strings(tokens@),
            ranked@.len() == i,
            forall|k: int|
                0 <= k < i ==> (#[trigger] ranked_tokens(ranked@)[k]) == (list[k], ranks@[k]),
        decreases tokens@.len() - i,
    {
        let ghost before = ranked_tokens(ranked@);
        ranked.push((slice_to_vec(tokens[i].as_slice()), ranks[i]));
        i += 1;
        assert forall|k: int| 0 <= k < i implies (#[trigger] ranked_tokens(ranked@)[k]) == (
            list[k],
            ranks@[k],
        ) by {
            if k < i - 1 {
                assert(before[k] == (list[k], ranks@[k]));
            }
        }
    }
    assert(ranked_tokens(ranked@) =~= Seq::new(list.len(), |k: int| (list[k], ranks@[k])));
    Ok(ranked)
}

} // verus!
