//! Encoding a text that may go on: which of its tokens stay whatever follows, and which
//! tokens may follow.
use vstd::prelude::*;
use vstd::slice::*;
use vstd::utf8::*;

use crate::bpe::Rank;
use crate::bpe::{bpe_encodable, bpe_encode, bpe_split};
use crate::byte_pair::try_byte_pair_encode;
use crate::core_bpe::{CoreBPE, lists_tokens};
use crate::order::{byte_strings, prefix_range};
use crate::outside::{last_char_of_bytes, text_of_bytes};
use crate::pattern::all_matches;
use crate::sequence_set::{SequenceSet, sequences};
use crate::tables::rank_of;
use crate::text::{bytes_between, is_white_space, lemma_last_char_unique, texts, white_space};
use crate::vocab::{
    Encoding, SpecialSearch, Vocab, decoded, encoding, encoding_from, encoding_of_items,
    is_inverse, next_special, ordinary_encoding, search_limit,
};

verus! {

/// A space.
pub const SPACE: u8 = 0x20;

/// A line feed.
pub const LINE_FEED: u8 = 0x0a;

/// A tab.
pub const TAB: u8 = 0x09;

/// The byte is a space, a line feed or a tab.
pub open spec fn is_space(byte: u8) -> bool {
    byte == SPACE || byte == LINE_FEED || byte == TAB
}

/// The bytes are spaces, line feeds and tabs only.
pub open spec fn all_space(bytes: Seq<u8>) -> bool {
    forall|i: int| 0 <= i < bytes.len() ==> is_space(#[trigger] bytes[i])
}

/// The token is a regular one whose bytes are spaces, line feeds and tabs only.
pub open spec fn is_space_token(v: Vocab, token: Rank) -> bool {
    v.decoder.contains_key(token) && all_space(v.decoder[token])
}

/// How many tokens there are at the end when those of space before the last `count` are
/// taken in too.
pub open spec fn over_space(v: Vocab, tokens: Seq<Rank>, count: nat) -> nat
    decreases tokens.len() - count,
{
    if count < tokens.len() && is_space_token(v, tokens[tokens.len() - count - 1]) {
        over_space(v, tokens, count + 1)
    } else {
        count
    }
}

/// How many tokens at the end are unstable, where the last piece has `count` of them: a
/// last piece that starts with space can merge with the space before it.
pub open spec fn unstable_count(v: Vocab, tokens: Seq<Rank>, count: nat) -> nat {
    if count > 0 && is_space_token(v, tokens[tokens.len() - count]) {
        over_space(v, tokens, count)
    } else {
        count
    }
}

/// The first tokens, as many as it takes to cover `len` bytes. `None` where one of them is
/// not a regular token.
pub open spec fn cut(v: Vocab, tokens: Seq<Rank>, len: int) -> Option<Seq<Rank>>
    decreases tokens.len(),
{
    if tokens.len() == 0 {
        Some(Seq::empty())
    } else if !v.decoder.contains_key(tokens[0]) {
        None
    } else if v.decoder[tokens[0]].len() >= len {
        Some(seq![tokens[0]])
    } else {
        match cut(v, tokens.skip(1), len - v.decoder[tokens[0]].len()) {
            Some(rest) => Some(seq![tokens[0]] + rest),
            None => None,
        }
    }
}

/// The tokens of some bytes: those of the text, where they are the bytes of one, else
/// those of byte pair encoding. `None` where there is no answer.
pub open spec fn retokenised(v: Vocab, bytes: Seq<u8>) -> Option<Seq<Rank>> {
    if valid_utf8(bytes) {
        match ordinary_encoding(v, decode_utf8(bytes)) {
            Encoding::Tokens(tokens, _) => Some(tokens),
            _ => None,
        }
    } else if bpe_encodable(v.encoder, bytes) {
        Some(bpe_encode(v.encoder, bytes))
    } else {
        None
    }
}

/// The tokens that cover the unstable bytes when the token that straddles their end
/// starts at `at`. `None` where there is no answer.
pub open spec fn straddling(
    v: Vocab,
    unstable: Seq<u8>,
    at: int,
    token: Seq<u8>,
) -> Option<Seq<Rank>> {
    match retokenised(v, unstable.take(at) + token) {
        Some(tokens) => cut(v, tokens, unstable.len() as int),
        None => None,
    }
}

/// The tokens are a single one that starts with the unstable bytes.
pub open spec fn is_whole(v: Vocab, unstable: Seq<u8>, tokens: Seq<Rank>) -> bool {
    exists|token: Seq<u8>| #[trigger]
        v.encoder.contains_key(token) && unstable.is_prefix_of(token) && tokens
            == seq![v.encoder[token]]
}

/// The tokens cover the unstable bytes with one that starts at `at` and straddles their
/// end.
pub open spec fn is_straddling(
    v: Vocab,
    unstable: Seq<u8>,
    at: int,
    tokens: Seq<Rank>,
) -> bool {
    exists|token: Seq<u8>| #[trigger]
        v.encoder.contains_key(token) && unstable.skip(at).is_prefix_of(token) && straddling(
            v,
            unstable,
            at,
            token,
        ) == Some(tokens)
}

/// The unstable bytes end with a character of white space, with bytes before it.
pub open spec fn ends_with_space(unstable: Seq<u8>, c: char) -> bool {
    &&& is_white_space(c)
    &&& encode_utf8(seq![c]).is_suffix_of(unstable)
    &&& encode_utf8(seq![c]).len() < unstable.len()
}

/// The tokens of the unstable bytes with a cut before their last character. `None` where
/// there is no answer.
pub open spec fn cut_before(v: Vocab, unstable: Seq<u8>, c: char) -> Option<Seq<Rank>> {
    let at = unstable.len() - encode_utf8(seq![c]).len();
    let front = unstable.take(at);
    let back = unstable.skip(at);
    if bpe_encodable(v.encoder, front) && bpe_encodable(v.encoder, back) {
        Some(bpe_encode(v.encoder, front) + bpe_encode(v.encoder, back))
    } else {
        None
    }
}

/// The tokens are those of the unstable bytes with a cut before a last character of white
/// space.
pub open spec fn is_cut(v: Vocab, unstable: Seq<u8>, tokens: Seq<Rank>) -> bool {
    exists|c: char| #[trigger]
        ends_with_space(unstable, c) && cut_before(v, unstable, c) == Some(tokens)
}

/// Every way to complete the unstable bytes has an answer.
pub open spec fn completions_defined(v: Vocab, unstable: Seq<u8>) -> bool {
    &&& forall|at: int, token: Seq<u8>|
        #![trigger straddling(v, unstable, at, token)]
        1 <= at < unstable.len() && v.encoder.contains_key(token) && unstable.skip(
            at,
        ).is_prefix_of(token) ==> straddling(v, unstable, at, token) is Some
    &&& forall|c: char| #[trigger]
        ends_with_space(unstable, c) ==> cut_before(v, unstable, c) is Some
}

/// The token sequences that the unstable bytes may come to when the text goes on.
pub open spec fn completions(v: Vocab, unstable: Seq<u8>) -> Set<Seq<Rank>> {
    Set::new(
        |tokens: Seq<Rank>|
            {
                ||| is_whole(v, unstable, tokens)
                ||| exists|at: int|
                    1 <= at < unstable.len() && #[trigger] is_straddling(v, unstable, at, tokens)
                ||| is_cut(v, unstable, tokens)
            },
    )
}

/// The tokens but for the last `count` of them, and what the bytes of those may come to.
/// `None` where there is no answer.
pub open spec fn completed(v: Vocab, tokens: Seq<Rank>, count: nat) -> Option<
    (Seq<Rank>, Set<Seq<Rank>>),
> {
    let stable = tokens.len() - count;
    match decoded(v, tokens.skip(stable)) {
        Ok(unstable) => if unstable.len() == 0 {
            Some((tokens.take(stable), Set::empty()))
        } else if completions_defined(v, unstable) {
            Some((tokens.take(stable), completions(v, unstable)))
        } else {
            None
        },
        Err(_) => None,
    }
}

/// The stable ones of the tokens of a text, and what the bytes of the others may come to,
/// where the last piece has `last` tokens. `None` where there is no answer.
pub open spec fn unstable_of_tokens(v: Vocab, tokens: Seq<Rank>, last: nat) -> Option<
    (Seq<Rank>, Set<Seq<Rank>>),
> {
    if last == 0 {
        Some((tokens, Set::empty()))
    } else {
        completed(v, tokens, unstable_count(v, tokens, last))
    }
}

/// The stable tokens of a text, and what the unstable bytes at its end may come to.
/// `None` where there is no answer.
pub open spec fn unstable_encoding(v: Vocab, text: Seq<char>, allowed: Set<Seq<char>>) -> Option<
    (Seq<Rank>, Set<Seq<Rank>>),
> {
    match encoding(v, text, allowed) {
        Encoding::Tokens(tokens, last) => unstable_of_tokens(v, tokens, last),
        _ => None,
    }
}

/// The list holds every sequence of a set once.
pub open spec fn lists_set(list: Seq<Vec<Rank>>, set: Set<Seq<Rank>>) -> bool {
    &&& sequences(list).no_duplicates()
    &&& sequences(list).to_set() == set
}

/// A result of encoding a text that may go on says what it comes to.
pub open spec fn is_unstable(
    result: Option<(Vec<Rank>, Vec<Vec<Rank>>)>,
    expected: Option<(Seq<Rank>, Set<Seq<Rank>>)>,
) -> bool {
    match (result, expected) {
        (Some((tokens, list)), Some((stable, completions))) => tokens@ == stable && lists_set(
            list@,
            completions,
        ),
        (None, None) => true,
        _ => false,
    }
}

/// No fewer tokens are unstable than the last piece has, and no more than there are.
pub proof fn lemma_unstable_count(v: Vocab, tokens: Seq<Rank>, count: nat)
    requires
        count <= tokens.len(),
    ensures
        count <= unstable_count(v, tokens, count) <= tokens.len(),
{
    lemma_over_space_bounded(v, tokens, count);
}

/// Taking in space makes no fewer tokens, and no more than there are.
proof fn lemma_over_space_bounded(v: Vocab, tokens: Seq<Rank>, count: nat)
    requires
        count <= tokens.len(),
    ensures
        count <= over_space(v, tokens, count) <= tokens.len(),
    decreases tokens.len() - count,
{
    if count < tokens.len() && is_space_token(v, tokens[tokens.len() - count - 1]) {
        lemma_over_space_bounded(v, tokens, count + 1);
    }
}

/// The last piece has no more tokens than the text.
pub proof fn lemma_last_bounded(v: Vocab, text: Seq<char>, allowed: Set<Seq<char>>, from: int)
    ensures
        encoding_from(v, text, allowed, from) matches Encoding::Tokens(tokens, last) ==> last
            <= tokens.len(),
    decreases encode_utf8(text).len() - from,
{
    let len = encode_utf8(text).len() as int;
    if let SpecialSearch::Found(_, end) = next_special(v.special_regex, text, allowed, from) {
        if from < end <= len {
            lemma_last_bounded(v, text, allowed, end as int);
        }
    }
}

/// The tokens of byte pair encoding are regular ones.
pub proof fn lemma_bpe_regular(v: Vocab, bytes: Seq<u8>)
    requires
        is_inverse(v.encoder, v.decoder),
        bpe_encodable(v.encoder, bytes),
    ensures
        forall|i: int|
            0 <= i < bpe_encode(v.encoder, bytes).len() ==> v.decoder.contains_key(
                #[trigger] bpe_encode(v.encoder, bytes)[i],
            ),
{
    let tokens = bpe_encode(v.encoder, bytes);
    assert forall|i: int| 0 <= i < tokens.len() implies v.decoder.contains_key(
        #[trigger] tokens[i],
    ) by {
        assert(v.encoder.contains_key(bpe_split(v.encoder, bytes)[i]));
    }
}

/// The tokens of the pieces of a text are regular ones.
pub proof fn lemma_items_regular(
    v: Vocab,
    text: Seq<char>,
    items: Seq<Result<(usize, usize), Seq<char>>>,
)
    requires
        is_inverse(v.encoder, v.decoder),
    ensures
        encoding_of_items(v.encoder, text, items) matches Encoding::Tokens(tokens, _) ==> forall|
            i: int,
        |
            0 <= i < tokens.len() ==> v.decoder.contains_key(#[trigger] tokens[i]),
    decreases items.len(),
{
    if items.len() > 0 {
        lemma_items_regular(v, text, items.drop_last());
        if let Ok((start, end)) = items.last() {
            let piece = bytes_between(text, start as int, end as int);
            if !v.encoder.contains_key(piece) && bpe_encodable(v.encoder, piece) {
                lemma_bpe_regular(v, piece);
            }
        }
    }
}

/// The tokens of some bytes are regular ones.
pub proof fn lemma_retokenised_regular(v: Vocab, bytes: Seq<u8>)
    requires
        is_inverse(v.encoder, v.decoder),
    ensures
        retokenised(v, bytes) matches Some(tokens) ==> forall|i: int|
            0 <= i < tokens.len() ==> v.decoder.contains_key(#[trigger] tokens[i]),
{
    if valid_utf8(bytes) {
        let text = decode_utf8(bytes);
        lemma_items_regular(v, text, all_matches(v.regex, text, search_limit(text)));
    } else if bpe_encodable(v.encoder, bytes) {
        lemma_bpe_regular(v, bytes);
    }
}

/// The tokens, followed by what comes behind them.
spec fn then_tokens(tokens: Seq<Rank>, rest: Option<Seq<Rank>>) -> Option<Seq<Rank>> {
    match rest {
        Some(rest) => Some(tokens + rest),
        None => None,
    }
}

/// Whether the bytes are spaces, line feeds and tabs only.
fn only_space(bytes: &[u8]) -> (only: bool)
    ensures
        only == all_space(bytes@),
{
    let mut i: usize = 0;
    while i < bytes.len()
        invariant
            i <= bytes@.len(),
            forall|k: int| 0 <= k < i ==> is_space(#[trigger] bytes@[k]),
        decreases bytes@.len() - i,
    {
        if bytes[i] != SPACE && bytes[i] != LINE_FEED && bytes[i] != TAB {
            assert(!is_space(bytes@[i as int]));
            return false;
        }
        i += 1;
    }
    true
}

impl CoreBPE {
    /// Whether the token is a regular one of space only.
    fn token_is_all_space(&self, token: Rank) -> (is: bool)
        ensures
            is == is_space_token(self.vocab(), token),
    {
        match self.regular_bytes(token) {
            Some(bytes) => only_space(bytes.as_slice()),
            None => false,
        }
    }

    /// How many tokens at the end are unstable, where the last piece has
    /// `last_piece_token_len` of them. The tokens are handed back.
    ///
    /// Where a text is cut into pieces can change when it goes on: with a pattern for space
    /// before line ends, space that was a piece of its own becomes part of a longer piece.
    pub fn _increase_last_piece_token_len(
        &self,
        tokens: Vec<Rank>,
        last_piece_token_len: usize,
    ) -> (increased: (Vec<Rank>, usize))
        requires
            last_piece_token_len <= tokens@.len(),
        ensures
            increased.0@ == tokens@,
            increased.1 == unstable_count(self.vocab(), tokens@, last_piece_token_len as nat),
            last_piece_token_len <= increased.1 <= tokens@.len(),
    {
        let mut count: usize = last_piece_token_len;
        if count > 0 && self.token_is_all_space(tokens[tokens.len() - count]) {
            while count < tokens.len() && self.token_is_all_space(tokens[tokens.len() - count - 1])
                invariant
                    last_piece_token_len <= count <= tokens@.len(),
                    over_space(self.vocab(), tokens@, last_piece_token_len as nat) == over_space(
                        self.vocab(),
                        tokens@,
                        count as nat,
                    ),
                decreases tokens@.len() - count,
            {
                count += 1;
            }
        }
        (tokens, count)
    }

    /// The first tokens, as many as it takes to cover `len` bytes. `None` where one of them
    /// is not a regular token.
    pub fn cut_tokens(&self, tokens: &[Rank], len: usize) -> (covered: Option<Vec<Rank>>)
        ensures
            match covered {
                Some(covered) => cut(self.vocab(), tokens@, len as int) == Some(covered@),
                None => cut(self.vocab(), tokens@, len as int) is None,
            },
    {
        let ghost v = self.vocab();
        let mut covered: Vec<Rank> = Vec::new();
        let mut remaining: usize = len;
        let mut i: usize = 0;
        proof {
            assert(tokens@.skip(0) =~= tokens@);
            if let Some(rest) = cut(v, tokens@, len as int) {
                assert(covered@ + rest =~= rest);
            }
        }
        while i < tokens.len()
            invariant
                v == self.vocab(),
                i <= tokens@.len(),
                cut(v, tokens@, len as int) == then_tokens(
                    covered@,
                    cut(v, tokens@.skip(i as int), remaining as int),
                ),
            decreases tokens@.len() - i,
        {
            let token = tokens[i];
            let bytes = match self.regular_bytes(token) {
                Some(bytes) => bytes,
                None => return None,
            };
            let ghost before = covered@;
            covered.push(token);
            proof {
                assert(tokens@.skip(i as int).skip(1) =~= tokens@.skip(i + 1));
                assert(covered@ =~= before + seq![token]);
                if let Some(rest) = cut(v, tokens@.skip(i + 1), remaining - bytes@.len()) {
                    assert(before + (seq![token] + rest) =~= covered@ + rest);
                }
            }
            if bytes.len() >= remaining {
                return Some(covered);
            }
            remaining = remaining - bytes.len();
            i += 1;
        }
        assert(covered@ + Seq::<Rank>::empty() =~= covered@);
        Some(covered)
    }

    /// The tokens of some bytes: those of the text, where they are the bytes of one, else
    /// those of byte pair encoding.
    fn retokenise(&self, bytes: &[u8], thread: usize) -> (tokens: Option<Vec<Rank>>)
        requires
            self.wf(),
        ensures
            match tokens {
                Some(tokens) => retokenised(self.vocab(), bytes@) == Some(tokens@),
                None => retokenised(self.vocab(), bytes@) is None,
            },
    {
        match text_of_bytes(bytes) {
            Ok(text) => {
                proof {
                    encode_utf8_decode_utf8(text@);
                }
                self.try_encode_ordinary(text, thread)
            },
            Err(_) => try_byte_pair_encode(bytes, self.ranks()),
        }
    }

    /// Puts the single tokens that start with the unstable bytes into the set.
    fn add_whole(&self, unstable: &[u8], set: &mut SequenceSet)
        requires
            self.wf(),
            old(set).wf(),
        ensures
            final(set).wf(),
            forall|tokens: Seq<Rank>| #[trigger]
                final(set)@.contains(tokens) <==> old(set)@.contains(tokens) || is_whole(
                    self.vocab(),
                    unstable@,
                    tokens,
                ),
    {
        let ghost v = self.vocab();
        let sorted = self.token_byte_values();
        let ghost list = byte_strings(sorted@);
        let (start, end) = prefix_range(sorted, unstable);
        let mut i: usize = start;
        while i < end
            invariant
                self.wf(),
                set.wf(),
                v == self.vocab(),
                list == byte_strings(sorted@),
                lists_tokens(list, v.encoder),
                start <= i <= end <= list.len(),
                forall|tokens: Seq<Rank>| #[trigger]
                    set@.contains(tokens) <==> old(set)@.contains(tokens) || exists|k: int|
                        start <= k < i && tokens == seq![v.encoder[#[trigger] list[k]]],
            decreases end - i,
        {
            let ghost before = set@;
            assert(list.contains(list[i as int]));
            let rank = rank_of(self.ranks(), sorted[i].as_slice()).unwrap();
            let single: Vec<Rank> = vec![rank];
            assert(single@ =~= seq![v.encoder[list[i as int]]]);
            set.insert(single);
            proof {
                assert forall|tokens: Seq<Rank>| #[trigger]
                    set@.contains(tokens) <==> old(set)@.contains(tokens) || exists|k: int|
                        start <= k < i + 1 && tokens == seq![v.encoder[#[trigger] list[k]]] by {
                    assert(before.contains(tokens) <==> old(set)@.contains(tokens) || exists|
                        k: int,
                    |
                        start <= k < i && tokens == seq![v.encoder[#[trigger] list[k]]]);
                }
            }
            i += 1;
        }
        proof {
            assert forall|tokens: Seq<Rank>| #[trigger]
                set@.contains(tokens) <==> old(set)@.contains(tokens) || is_whole(
                    v,
                    unstable@,
                    tokens,
                ) by {
                if is_whole(v, unstable@, tokens) {
                    let token = choose|token: Seq<u8>| #[trigger]
                        v.encoder.contains_key(token) && unstable@.is_prefix_of(token) && tokens
                            == seq![v.encoder[token]];
                    assert(list.contains(token));
                    let k = choose|k: int| 0 <= k < list.len() && list[k] == token;
                    assert(tokens == seq![v.encoder[list[k]]]);
                }
                if exists|k: int|
                    start <= k < end && tokens == seq![v.encoder[#[trigger] list[k]]] {
                    let k = choose|k: int|
                        start <= k < end && tokens == seq![v.encoder[#[trigger] list[k]]];
                    assert(list.contains(list[k]));
                    assert(v.encoder.contains_key(list[k]));
                }
            }
        }
    }

    /// Puts the token sequences with a straddling token that starts at `at` into the set.
    /// Says whether all of them have an answer.
    fn add_straddling(
        &self,
        unstable: &[u8],
        at: usize,
        set: &mut SequenceSet,
        thread: usize,
    ) -> (all: bool)
        requires
            self.wf(),
            old(set).wf(),
            1 <= at < unstable@.len(),
        ensures
            final(set).wf(),
            all <==> forall|token: Seq<u8>|
                #![trigger straddling(self.vocab(), unstable@, at as int, token)]
                self.vocab().encoder.contains_key(token) && unstable@.skip(
                    at as int,
                ).is_prefix_of(token) ==> straddling(self.vocab(), unstable@, at as int, token)
                    is Some,
            all ==> forall|tokens: Seq<Rank>| #[trigger]
                final(set)@.contains(tokens) <==> old(set)@.contains(tokens) || is_straddling(
                    self.vocab(),
                    unstable@,
                    at as int,
                    tokens,
                ),
    {
        let ghost v = self.vocab();
        let sorted = self.token_byte_values();
        let ghost list = byte_strings(sorted@);
        let prefix = &unstable[0..at];
        let suffix = &unstable[at..unstable.len()];
        proof {
            assert(prefix@ =~= unstable@.take(at as int));
            assert(suffix@ =~= unstable@.skip(at as int));
        }
        let (start, end) = prefix_range(sorted, suffix);
        let mut i: usize = start;
        while i < end
            invariant
                self.wf(),
                set.wf(),
                v == self.vocab(),
                list == byte_strings(sorted@),
                lists_tokens(list, v.encoder),
                prefix@ == unstable@.take(at as int),
                suffix@ == unstable@.skip(at as int),
                forall|k: int|
                    0 <= k < list.len() ==> (start <= k < end <==> suffix@.is_prefix_of(
                        #[trigger] list[k],
                    )),
                start <= i <= end <= list.len(),
                forall|k: int|
                    start <= k < i ==> straddling(v, unstable@, at as int, #[trigger] list[k])
                        is Some,
                forall|tokens: Seq<Rank>| #[trigger]
                    set@.contains(tokens) <==> old(set)@.contains(tokens) || exists|k: int|
                        start <= k < i && straddling(
                            v,
                            unstable@,
                            at as int,
                            #[trigger] list[k],
                        ) == Some(tokens),
            decreases end - i,
        {
            let ghost before = set@;
            let ghost token = list[i as int];
            assert(list.contains(token));
            let mut possibility = slice_to_vec(prefix);
            possibility.extend_from_slice(sorted[i].as_slice());
            assert(possibility@ =~= prefix@ + token);
            let encoded = match self.retokenise(possibility.as_slice(), thread) {
                Some(encoded) => encoded,
                None => {
                    assert(straddling(v, unstable@, at as int, token) is None);
                    return false;
                },
            };
            let covered = match self.cut_tokens(encoded.as_slice(), unstable.len()) {
                Some(covered) => covered,
                None => {
                    assert(straddling(v, unstable@, at as int, token) is None);
                    return false;
                },
            };
            let ghost added = covered@;
            assert(straddling(v, unstable@, at as int, token) == Some(added));
            set.insert(covered);
            proof {
                assert forall|tokens: Seq<Rank>| #[trigger]
                    set@.contains(tokens) <==> old(set)@.contains(tokens) || exists|k: int|
                        start <= k < i + 1 && straddling(
                            v,
                            unstable@,
                            at as int,
                            #[trigger] list[k],
                        ) == Some(tokens) by {
                    assert(before.contains(tokens) <==> old(set)@.contains(tokens) || exists|
                        k: int,
                    |
                        start <= k < i && straddling(
                            v,
                            unstable@,
                            at as int,
                            #[trigger] list[k],
                        ) == Some(tokens));
                    if tokens == added {
                        assert(straddling(v, unstable@, at as int, list[i as int]) == Some(tokens));
                    }
                }
            }
            i += 1;
        }
        proof {
            assert forall|token: Seq<u8>|
                #![trigger straddling(v, unstable@, at as int, token)]
                v.encoder.contains_key(token) && unstable@.skip(at as int).is_prefix_of(
                    token,
                ) implies straddling(v, unstable@, at as int, token) is Some by {
                assert(list.contains(token));
                let k = choose|k: int| 0 <= k < list.len() && list[k] == token;
                assert(suffix@.is_prefix_of(list[k]));
            }
            assert forall|tokens: Seq<Rank>| #[trigger]
                set@.contains(tokens) <==> old(set)@.contains(tokens) || is_straddling(
                    v,
                    unstable@,
                    at as int,
                    tokens,
                ) by {
                if is_straddling(v, unstable@, at as int, tokens) {
                    let token = choose|token: Seq<u8>| #[trigger]
                        v.encoder.contains_key(token) && unstable@.skip(at as int).is_prefix_of(
                            token,
                        ) && straddling(v, unstable@, at as int, token) == Some(tokens);
                    assert(list.contains(token));
                    let k = choose|k: int| 0 <= k < list.len() && list[k] == token;
                    assert(straddling(v, unstable@, at as int, list[k]) == Some(tokens));
                }
                if exists|k: int|
                    start <= k < end && straddling(v, unstable@, at as int, #[trigger] list[k])
                        == Some(tokens) {
                    let k = choose|k: int|
                        start <= k < end && straddling(
                            v,
                            unstable@,
                            at as int,
                            #[trigger] list[k],
                        ) == Some(tokens);
                    assert(list.contains(list[k]));
                    assert(v.encoder.contains_key(list[k]));
                }
            }
        }
        true
    }

    /// Puts the tokens of the unstable bytes with a cut before a last character of white
    /// space into the set, where there is one. Says whether they have an answer.
    fn add_cut(&self, unstable: &[u8], set: &mut SequenceSet) -> (answered: bool)
        requires
            old(set).wf(),
        ensures
            final(set).wf(),
            answered <==> forall|c: char| #[trigger]
                ends_with_space(unstable@, c) ==> cut_before(self.vocab(), unstable@, c) is Some,
            answered ==> forall|tokens: Seq<Rank>| #[trigger]
                final(set)@.contains(tokens) <==> old(set)@.contains(tokens) || is_cut(
                    self.vocab(),
                    unstable@,
                    tokens,
                ),
    {
        let ghost v = self.vocab();
        let (last, len) = match last_char_of_bytes(unstable) {
            Some(found) => found,
            None => return true,
        };
        assert forall|c: char| ends_with_space(unstable@, c) implies c == last by {
            lemma_last_char_unique(unstable@, c, last);
        }
        if len >= unstable.len() || !white_space(last) {
            return true;
        }
        assert(ends_with_space(unstable@, last));
        let at = unstable.len() - len;
        let front = &unstable[0..at];
        let back = &unstable[at..unstable.len()];
        proof {
            assert(front@ =~= unstable@.take(at as int));
            assert(back@ =~= unstable@.skip(at as int));
        }
        let mut reencoded = match try_byte_pair_encode(front, self.ranks()) {
            Some(tokens) => tokens,
            None => return false,
        };
        let mut more = match try_byte_pair_encode(back, self.ranks()) {
            Some(tokens) => tokens,
            None => return false,
        };
        reencoded.append(&mut more);
        assert(cut_before(v, unstable@, last) == Some(reencoded@));
        set.insert(reencoded);
        true
    }

    /// What the unstable bytes may come to when the text goes on. `None` where some way to
    /// complete them has no answer.
    fn complete(&self, unstable: &[u8], thread: usize) -> (list: Option<Vec<Vec<Rank>>>)
        requires
            self.wf(),
        ensures
            list is Some <==> completions_defined(self.vocab(), unstable@),
            list is Some ==> lists_set(list->0@, completions(self.vocab(), unstable@)),
    {
        let ghost v = self.vocab();
        let mut set = SequenceSet::new();
        self.add_whole(unstable, &mut set);
        let mut at: usize = 1;
        while at < unstable.len()
            invariant
                self.wf(),
                v == self.vocab(),
                set.wf(),
                1 <= at,
                at == 1 || at <= unstable@.len(),
                forall|i: int, token: Seq<u8>|
                    #![trigger straddling(v, unstable@, i, token)]
                    1 <= i < at && v.encoder.contains_key(token) && unstable@.skip(
                        i,
                    ).is_prefix_of(token) ==> straddling(v, unstable@, i, token) is Some,
                forall|tokens: Seq<Rank>| #[trigger]
                    set@.contains(tokens) <==> is_whole(v, unstable@, tokens) || exists|i: int|
                        1 <= i < at && #[trigger] is_straddling(v, unstable@, i, tokens),
            decreases unstable@.len() - at,
        {
            let ghost before = set@;
            if !self.add_straddling(unstable, at, &mut set, thread) {
                return None;
            }
            proof {
                assert forall|tokens: Seq<Rank>| #[trigger]
                    set@.contains(tokens) <==> is_whole(v, unstable@, tokens) || exists|i: int|
                        1 <= i < at + 1 && #[trigger] is_straddling(v, unstable@, i, tokens) by {
                    assert(before.contains(tokens) <==> is_whole(v, unstable@, tokens) || exists|
                        i: int,
                    |
                        1 <= i < at && #[trigger] is_straddling(v, unstable@, i, tokens));
                    assert(set@.contains(tokens) <==> before.contains(tokens) || is_straddling(
                        v,
                        unstable@,
                        at as int,
                        tokens,
                    ));
                }
            }
            at += 1;
        }
        let ghost before = set@;
        if !self.add_cut(unstable, &mut set) {
            return None;
        }
        proof {
            assert forall|tokens: Seq<Rank>| set@.contains(tokens) == completions(
                v,
                unstable@,
            ).contains(tokens) by {
                assert(before.contains(tokens) <==> is_whole(v, unstable@, tokens) || exists|
                    i: int,
                |
                    1 <= i < at && #[trigger] is_straddling(v, unstable@, i, tokens));
            }
            assert(set@ =~= completions(v, unstable@));
        }
        Some(set.into_list())
    }

    /// Splits the tokens of a text that may go on into the stable ones and what the bytes of
    /// the others may come to, where the last piece has `last_piece_token_len` tokens. `None`
    /// where there is no answer.
    pub fn complete_tokens(
        &self,
        tokens: Vec<Rank>,
        last_piece_token_len: usize,
        thread: usize,
    ) -> (result: Option<(Vec<Rank>, Vec<Vec<Rank>>)>)
        requires
            self.wf(),
            last_piece_token_len <= tokens@.len(),
        ensures
            is_unstable(
                result,
                unstable_of_tokens(self.vocab(), tokens@, last_piece_token_len as nat),
            ),
    {
        let no_completions: Vec<Vec<Rank>> = Vec::new();
        assert(sequences(no_completions@).to_set() =~= Set::empty());
        if last_piece_token_len == 0 {
            return Some((tokens, no_completions));
        }
        let (mut tokens, count) = self._increase_last_piece_token_len(
            tokens,
            last_piece_token_len,
        );
        let ghost before = tokens@;
        let stable = tokens.len() - count;
        let unstable = match self.decode_bytes(&tokens.as_slice()[stable..tokens.len()]) {
            Ok(bytes) => bytes,
            Err(_) => {
                assert(before.subrange(stable as int, before.len() as int) =~= before.skip(
                    stable as int,
                ));
                return None;
            },
        };
        assert(before.subrange(stable as int, before.len() as int) =~= before.skip(stable as int));
        tokens.truncate(stable);
        assert(tokens@ =~= before.take(stable as int));
        if unstable.len() == 0 {
            return Some((tokens, no_completions));
        }
        match self.complete(unstable.as_slice(), thread) {
            Some(list) => Some((tokens, list)),
            None => None,
        }
    }

    /// The stable tokens of a text that may go on, and the token sequences that the bytes at
    /// its end may come to, each of them once. `None` where there is no answer. The result is
    /// the same for every thread, but for the order of the sequences.
    pub fn try_encode_unstable_native(
        &self,
        text: &str,
        allowed_special: &[&str],
        thread: usize,
    ) -> (result: Option<(Vec<Rank>, Vec<Vec<Rank>>)>)
        requires
            self.wf(),
        ensures
            is_unstable(
                result,
                unstable_encoding(self.vocab(), text@, texts(allowed_special@).to_set()),
            ),
    {
        match self.try_encode(text, allowed_special, thread) {
            Some(Ok((tokens, last_piece_token_len))) => {
                proof {
                    lemma_last_bounded(self.vocab(), text@, texts(allowed_special@).to_set(), 0);
                }
                self.complete_tokens(tokens, last_piece_token_len, thread)
            },
            _ => None,
        }
    }

    /// The stable tokens of a text that may go on, and the token sequences that the bytes at
    /// its end may come to, each of them once.
    pub fn _encode_unstable_native(
        &self,
        text: &str,
        allowed_special: &[&str],
        thread: usize,
    ) -> (result: (Vec<Rank>, Vec<Vec<Rank>>))
        requires
            self.wf(),
            unstable_encoding(self.vocab(), text@, texts(allowed_special@).to_set()) is Some,
        ensures
            is_unstable(
                Some(result),
                unstable_encoding(self.vocab(), text@, texts(allowed_special@).to_set()),
            ),
    {
        self.try_encode_unstable_native(text, allowed_special, thread).unwrap()
    }
}

} // verus!
