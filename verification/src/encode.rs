//! Encoding.
use fancy_regex::Regex;
use vstd::prelude::*;
use vstd::string::*;
use vstd::utf8::*;

use crate::bpe::Rank;
use crate::byte_pair::try_byte_pair_encode;
use crate::core_bpe::CoreBPE;
use crate::error::EncodeError;
use crate::pattern::{
    all_matches, find_all, find_from, first_match, is_searchable, item_view, items_view,
};
use crate::tables::rank_of;
use crate::text::{
    is_text_range, lemma_boundary_in_range, same_text, substring, text_between, texts,
};
use crate::vocab::{
    Encoding, SpecialSearch, behind, char_start_from, encoding, encoding_from, encoding_of_items,
    judge_special, lemma_char_start_from, next_special, ordinary_encoding, piece_tokens,
    search_limit, segment_encoding, stretch_encoding,
};

verus! {

/// A result of encoding says what the encoding comes to. `None` stands for an encoding
/// without an answer.
pub open spec fn is_encoding(
    result: Option<Result<(Vec<Rank>, usize), EncodeError>>,
    encoding: Encoding,
) -> bool {
    match encoding {
        Encoding::Tokens(tokens, last) => {
            &&& result is Some
            &&& result->0 is Ok
            &&& result->0->Ok_0.0@ == tokens
            &&& result->0->Ok_0.1 == last
        },
        Encoding::Fails(message) => {
            &&& result is Some
            &&& result->0 is Err
            &&& result->0->Err_0.message@ == message
        },
        Encoding::Undefined => result is None,
    }
}

/// Where the first items do not give tokens, more items change nothing.
proof fn lemma_items_prefix(
    encoder: Map<Seq<u8>, Rank>,
    text: Seq<char>,
    items: Seq<Result<(usize, usize), Seq<char>>>,
    len: int,
)
    requires
        0 <= len <= items.len(),
        !(encoding_of_items(encoder, text, items.take(len)) is Tokens),
    ensures
        encoding_of_items(encoder, text, items) == encoding_of_items(
            encoder,
            text,
            items.take(len),
        ),
    decreases items.len(),
{
    if len < items.len() {
        assert(items.drop_last().take(len) =~= items.take(len));
        lemma_items_prefix(encoder, text, items.drop_last(), len);
    } else {
        assert(items.take(len) =~= items);
    }
}

/// A special token that is found from a position on is allowed, and a range of whole
/// characters that starts there or behind.
pub proof fn lemma_next_special(regex: Regex, text: Seq<char>, allowed: Set<Seq<char>>, from: int)
    ensures
        next_special(regex, text, allowed, from) matches SpecialSearch::Found(start, end) ==> from
            <= start && is_text_range(text, start as int, end as int) && end
            <= encode_utf8(text).len() && allowed.contains(
            text_between(text, start as int, end as int),
        ),
    decreases encode_utf8(text).len() - from,
{
    encode_utf8_valid_utf8(text);
    match judge_special(text, allowed, from, first_match(regex, text, from as nat)) {
        SpecialSearch::Again(again) => {
            if from < again <= encode_utf8(text).len() {
                lemma_next_special(regex, text, allowed, again as int);
            }
        },
        SpecialSearch::Found(start, end) => {
            lemma_boundary_in_range(encode_utf8(text), end as int);
        },
        _ => {},
    }
}

/// The characters of a text, if there is one.
pub open spec fn text_view(text: Option<&str>) -> Option<Seq<char>> {
    match text {
        Some(text) => Some(text@),
        None => None,
    }
}

/// The result of a search with its error message, if it is one, by its characters.
pub open spec fn found_view(found: Result<Option<(usize, usize)>, String>) -> Result<
    Option<(usize, usize)>,
    Seq<char>,
> {
    match found {
        Ok(range) => Ok(range),
        Err(message) => Err(message@),
    }
}

/// Whether the range cuts whole characters out of the text.
fn cuts_chars(text: &str, start: usize, end: usize) -> (cuts: bool)
    ensures
        cuts == is_text_range(text@, start as int, end as int),
{
    start <= end && text.is_char_boundary(start) && text.is_char_boundary(end)
}

/// Whether the list holds the text.
fn holds_text(list: &[&str], text: &str) -> (holds: bool)
    ensures
        holds == texts(list@).contains(text@),
{
    let mut i: usize = 0;
    while i < list.len()
        invariant
            i <= list@.len(),
            forall|k: int| 0 <= k < i ==> (#[trigger] texts(list@)[k]) != text@,
        decreases list@.len() - i,
    {
        if same_text(list[i], text) {
            assert(texts(list@)[i as int] == text@);
            return true;
        }
        i += 1;
    }
    false
}

/// The first start of a character behind a position in the text, or `None` at its end.
fn next_char_start(text: &str, start: usize) -> (next: Option<usize>)
    requires
        start <= encode_utf8(text@).len(),
    ensures
        match next {
            Some(next) => next == char_start_from(encode_utf8(text@), start + 1) && next
                <= encode_utf8(text@).len(),
            None => char_start_from(encode_utf8(text@), start + 1) > encode_utf8(text@).len(),
        },
{
    let ghost bytes = encode_utf8(text@);
    let len = text.as_bytes().len();
    if start >= len {
        return None;
    }
    let mut next: usize = start + 1;
    while next < len && !text.is_char_boundary(next)
        invariant
            bytes == encode_utf8(text@),
            len == bytes.len(),
            next <= len,
            char_start_from(bytes, start + 1) == char_start_from(bytes, next as int),
        decreases len - next,
    {
        next += 1;
    }
    Some(next)
}

/// The items of a search of the whole text, cut where the search stands still.
fn search(regex: &Regex, text: &str) -> (items: Vec<Result<(usize, usize), String>>)
    requires
        is_searchable(*regex),
    ensures
        items_view(items@) == all_matches(*regex, text@, search_limit(text@)),
{
    let len = text.as_bytes().len();
    let limit = if len <= usize::MAX - 3 {
        len + 3
    } else {
        usize::MAX
    };
    find_all(regex, text, limit)
}

/// What the first match at or behind a position comes to, in a search for special tokens.
pub fn judge_match(
    text: &str,
    allowed: &[&str],
    from: usize,
    found: &Result<Option<(usize, usize)>, String>,
) -> (step: SpecialSearch)
    ensures
        step == judge_special(text@, texts(allowed@).to_set(), from as int, found_view(*found)),
        step matches SpecialSearch::Again(again) ==> from < again && again <= encode_utf8(
            text@,
        ).len() && is_char_boundary(encode_utf8(text@), again as int),
{
    match found {
        Err(_) => SpecialSearch::Undefined,
        Ok(None) => SpecialSearch::Absent,
        Ok(Some((start, end))) => {
            if *start < from || !cuts_chars(text, *start, *end) {
                return SpecialSearch::Undefined;
            }
            if holds_text(allowed, substring(text, *start, *end)) {
                return SpecialSearch::Found(*start, *end);
            }
            proof {
                encode_utf8_valid_utf8(text@);
                lemma_boundary_in_range(encode_utf8(text@), *start as int);
                lemma_char_start_from(encode_utf8(text@), *start + 1);
            }
            match next_char_start(text, *start) {
                Some(next) => SpecialSearch::Again(next),
                None => SpecialSearch::Absent,
            }
        },
    }
}

/// Searches for the first allowed special token from a position on.
fn find_special(
    regex: &Regex,
    text: &str,
    allowed: &[&str],
    from: usize,
) -> (found: SpecialSearch)
    requires
        is_searchable(*regex),
        is_char_boundary(encode_utf8(text@), from as int),
    ensures
        found == next_special(*regex, text@, texts(allowed@).to_set(), from as int),
{
    let ghost allowed_texts = texts(allowed@).to_set();
    let mut start_find: usize = from;
    proof {
        encode_utf8_valid_utf8(text@);
        lemma_boundary_in_range(encode_utf8(text@), from as int);
    }
    loop
        invariant
            is_searchable(*regex),
            allowed_texts == texts(allowed@).to_set(),
            start_find <= encode_utf8(text@).len(),
            is_char_boundary(encode_utf8(text@), start_find as int),
            next_special(*regex, text@, allowed_texts, from as int) == next_special(
                *regex,
                text@,
                allowed_texts,
                start_find as int,
            ),
        decreases encode_utf8(text@).len() - start_find,
    {
        let found = find_from(regex, text, start_find);
        match judge_match(text, allowed, start_find, &found) {
            SpecialSearch::Again(again) => start_find = again,
            step => return step,
        }
    }
}

impl CoreBPE {
    /// Appends the tokens of a piece and returns how many there are, or `None` where the
    /// piece has no encoding.
    pub(crate) fn push_piece(&self, piece: &[u8], tokens: &mut Vec<Rank>) -> (count: Option<usize>)
        ensures
            match piece_tokens(self.vocab().encoder, piece@) {
                Some(more) => {
                    &&& count is Some
                    &&& count->0 == more.len()
                    &&& final(tokens)@ == old(tokens)@ + more
                },
                None => count is None,
            },
    {
        if let Some(rank) = rank_of(self.ranks(), piece) {
            tokens.push(rank);
            assert(tokens@ =~= old(tokens)@ + seq![rank]);
            return Some(1);
        }
        match try_byte_pair_encode(piece, self.ranks()) {
            Some(mut more) => {
                let count = more.len();
                tokens.append(&mut more);
                Some(count)
            },
            None => None,
        }
    }

    /// The tokens of the pieces of a text that a search found, with the number of tokens
    /// of the last piece, or the error of the search. `None` where an item is no range of
    /// whole characters or a piece has no encoding.
    pub fn encode_items(
        &self,
        text: &str,
        items: &[Result<(usize, usize), String>],
    ) -> (result: Option<Result<(Vec<Rank>, usize), EncodeError>>)
        ensures
            is_encoding(
                result,
                encoding_of_items(self.vocab().encoder, text@, items_view(items@)),
            ),
    {
        let ghost encoder = self.vocab().encoder;
        let ghost found = items_view(items@);
        let mut tokens: Vec<Rank> = Vec::new();
        let mut last_piece_token_len: usize = 0;
        let mut i: usize = 0;
        while i < items.len()
            invariant
                encoder == self.vocab().encoder,
                found == items_view(items@),
                i <= items@.len(),
                encoding_of_items(encoder, text@, found.take(i as int)) == Encoding::Tokens(
                    tokens@,
                    last_piece_token_len as nat,
                ),
            decreases items@.len() - i,
        {
            let ghost now = found.take(i + 1);
            proof {
                assert(now.drop_last() =~= found.take(i as int));
                assert(now.last() == item_view(items@[i as int]));
                if !(encoding_of_items(encoder, text@, now) is Tokens) {
                    lemma_items_prefix(encoder, text@, found, i + 1);
                }
            }
            match &items[i] {
                Ok((start, end)) => {
                    if !cuts_chars(text, *start, *end) {
                        return None;
                    }
                    let piece = substring(text, *start, *end);
                    match self.push_piece(piece.as_bytes(), &mut tokens) {
                        Some(count) => last_piece_token_len = count,
                        None => return None,
                    }
                },
                Err(error) => {
                    let message = String::from_str("Regex error while tokenizing: ").concat(
                        error.as_str(),
                    );
                    return Some(Err(EncodeError { message }));
                },
            }
            i += 1;
        }
        assert(found.take(i as int) =~= found);
        Some(Ok((tokens, last_piece_token_len)))
    }

    /// The tokens of a stretch of text whose pieces a search found, and of the special token
    /// behind it, if there is one, with the number of tokens of the last piece. `None` where
    /// `encode_items` gives none, or where the special token is unknown.
    pub fn encode_segment(
        &self,
        text: &str,
        items: &[Result<(usize, usize), String>],
        special: Option<&str>,
    ) -> (result: Option<Result<(Vec<Rank>, usize), EncodeError>>)
        ensures
            is_encoding(
                result,
                segment_encoding(self.vocab(), text@, items_view(items@), text_view(special)),
            ),
    {
        let (mut tokens, last_piece_token_len) = match self.encode_items(text, items) {
            Some(Ok(found)) => found,
            other => return other,
        };
        match special {
            Some(special) => match self.special_rank(special) {
                Some(rank) => {
                    tokens.push(rank);
                    Some(Ok((tokens, 0)))
                },
                None => None,
            },
            None => Some(Ok((tokens, last_piece_token_len))),
        }
    }

    /// Searches a stretch of text for pieces and encodes them, and the special token behind
    /// it, if there is one.
    fn encode_stretch(&self, text: &str, special: Option<&str>, thread: usize) -> (result: Option<
        Result<(Vec<Rank>, usize), EncodeError>,
    >)
        requires
            self.wf(),
        ensures
            is_encoding(result, stretch_encoding(self.vocab(), text@, text_view(special))),
    {
        let items = search(self._get_tl_regex(thread), text);
        let len = text.as_bytes().len();
        if items.len() > len && items.len() - len >= 3 || items.len() == usize::MAX {
            return None;
        }
        self.encode_segment(text, items.as_slice(), special)
    }

    /// The tokens of a text with regular tokens only, or `None` where the search for pieces
    /// fails or the text has no encoding. The result is the same for every thread.
    pub fn try_encode_ordinary(&self, text: &str, thread: usize) -> (tokens: Option<Vec<Rank>>)
        requires
            self.wf(),
        ensures
            match ordinary_encoding(self.vocab(), text@) {
                Encoding::Tokens(expected, _) => tokens is Some && tokens->0@ == expected,
                _ => tokens is None,
            },
    {
        match self.encode_stretch(text, None, thread) {
            Some(Ok((tokens, _))) => Some(tokens),
            _ => None,
        }
    }

    /// The tokens of a text with regular tokens only.
    pub fn encode_ordinary(&self, text: &str, thread: usize) -> (tokens: Vec<Rank>)
        requires
            self.wf(),
            ordinary_encoding(self.vocab(), text@) is Tokens,
        ensures
            tokens@ == ordinary_encoding(self.vocab(), text@)->Tokens_0,
    {
        self.try_encode_ordinary(text, thread).unwrap()
    }

    /// The tokens of a text with the allowed special tokens, with the number of tokens of
    /// the last piece (none where the text ends with a special token), or the error of the
    /// search for pieces. `None` where the text has no encoding. The result is the same for
    /// every thread.
    pub fn try_encode(&self, text: &str, allowed_special: &[&str], thread: usize) -> (result:
        Option<Result<(Vec<Rank>, usize), EncodeError>>)
        requires
            self.wf(),
        ensures
            is_encoding(result, encoding(self.vocab(), text@, texts(allowed_special@).to_set())),
    {
        let ghost v = self.vocab();
        let ghost bytes = encode_utf8(text@);
        let ghost allowed = texts(allowed_special@).to_set();
        let special_regex = self._get_tl_special_regex(thread);
        let len = text.as_bytes().len();
        let mut tokens: Vec<Rank> = Vec::new();
        let mut start: usize = 0;
        proof {
            encode_utf8_valid_utf8(text@);
            is_char_boundary_start_end_of_seq(bytes);
            assert(behind(tokens@, encoding_from(v, text@, allowed, 0)) =~= encoding(
                v,
                text@,
                allowed,
            ));
        }
        loop
            invariant
                is_searchable(*special_regex),
                self.wf(),
                v == self.vocab(),
                bytes == encode_utf8(text@),
                valid_utf8(bytes),
                is_char_boundary(bytes, bytes.len() as int),
                allowed == texts(allowed_special@).to_set(),
                *special_regex == v.special_regex,
                len == bytes.len(),
                start <= len,
                is_char_boundary(bytes, start as int),
                encoding(v, text@, allowed) == behind(
                    tokens@,
                    encoding_from(v, text@, allowed, start as int),
                ),
            decreases len - start,
        {
            proof {
                lemma_next_special(v.special_regex, text@, allowed, start as int);
            }
            let (special_start, special_end) = match find_special(
                special_regex,
                text,
                allowed_special,
                start,
            ) {
                SpecialSearch::Found(special_start, special_end) => (special_start, special_end),
                SpecialSearch::Absent => {
                    return match self.encode_stretch(substring(text, start, len), None, thread) {
                        Some(Ok((mut more, last_piece_token_len))) => {
                            tokens.append(&mut more);
                            Some(Ok((tokens, last_piece_token_len)))
                        },
                        other => other,
                    };
                },
                _ => return None,
            };
            let part = substring(text, start, special_start);
            let special = substring(text, special_start, special_end);
            match self.encode_stretch(part, Some(special), thread) {
                Some(Ok((mut more, _))) => tokens.append(&mut more),
                other => return other,
            }
            if special_end <= start {
                return None;
            }
            start = special_end;
        }
    }

    /// The tokens of a text with the allowed special tokens, with the number of tokens of
    /// the last piece (none where the text ends with a special token), or the error of the
    /// search for pieces.
    pub fn encode(&self, text: &str, allowed_special: &[&str], thread: usize) -> (result: Result<
        (Vec<Rank>, usize),
        EncodeError,
    >)
        requires
            self.wf(),
            !(encoding(self.vocab(), text@, texts(allowed_special@).to_set()) is Undefined),
        ensures
            is_encoding(
                Some(result),
                encoding(self.vocab(), text@, texts(allowed_special@).to_set()),
            ),
    {
        self.try_encode(text, allowed_special, thread).unwrap()
    }

    /// The tokens of a text with every special token allowed, or `None` where the search for
    /// pieces fails or the text has no encoding.
    pub fn try_encode_with_special_tokens(&self, text: &str, thread: usize) -> (tokens: Option<
        Vec<Rank>,
    >)
        requires
            self.wf(),
        ensures
            match encoding(self.vocab(), text@, self.vocab().special_encoder.dom()) {
                Encoding::Tokens(expected, _) => tokens is Some && tokens->0@ == expected,
                _ => tokens is None,
            },
    {
        let allowed_special = self.special_tokens();
        assert(texts(allowed_special@).to_set() =~= self.vocab().special_encoder.dom()) by {
            assert forall|text: Seq<char>|
                texts(allowed_special@).to_set().contains(text)
                    == self.vocab().special_encoder.dom().contains(text) by {
                assert(texts(allowed_special@).contains(text)
                    <==> self.vocab().special_encoder.contains_key(text));
            }
        }
        match self.try_encode(text, allowed_special.as_slice(), thread) {
            Some(Ok((tokens, _))) => Some(tokens),
            _ => None,
        }
    }

    /// The tokens of a text with every special token allowed.
    pub fn encode_with_special_tokens(&self, text: &str, thread: usize) -> (tokens: Vec<Rank>)
        requires
            self.wf(),
            encoding(self.vocab(), text@, self.vocab().special_encoder.dom()) is Tokens,
        ensures
            tokens@ == encoding(
                self.vocab(),
                text@,
                self.vocab().special_encoder.dom(),
            )->Tokens_0,
    {
        self.try_encode_with_special_tokens(text, thread).unwrap()
    }
}

} // verus!
