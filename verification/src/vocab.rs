//! The mathematical model of a vocabulary: what its tokens stand for, and what the
//! tokens of a text are.
use fancy_regex::Regex;
use vstd::prelude::*;
use vstd::utf8::*;

use crate::bpe::Rank;
use crate::bpe::{bpe_encodable, bpe_encode};
use crate::pattern::{all_matches, first_match};
use crate::text::{bytes_between, is_text_range, text_between};

verus! {

/// What a tokeniser knows: its regular and its special tokens, the expression that cuts
/// a text into pieces, and the one that finds special tokens.
pub struct Vocab {
    pub encoder: Map<Seq<u8>, Rank>,
    pub special_encoder: Map<Seq<char>, Rank>,
    pub decoder: Map<Rank, Seq<u8>>,
    pub special_decoder: Map<Rank, Seq<u8>>,
    pub regex: Regex,
    pub special_regex: Regex,
}

/// No two byte strings have the same rank.
pub open spec fn ranks_distinct(encoder: Map<Seq<u8>, Rank>) -> bool {
    forall|a: Seq<u8>, b: Seq<u8>|
        #![trigger encoder[a], encoder[b]]
        encoder.contains_key(a) && encoder.contains_key(b) && encoder[a] == encoder[b] ==> a == b
}

/// `decoder` maps each rank back to the byte string that `encoder` gives it.
pub open spec fn is_inverse(
    encoder: Map<Seq<u8>, Rank>,
    decoder: Map<Rank, Seq<u8>>,
) -> bool {
    &&& forall|bytes: Seq<u8>| #[trigger]
        encoder.contains_key(bytes) ==> decoder.contains_key(encoder[bytes])
            && decoder[encoder[bytes]] == bytes
    &&& forall|rank: Rank| #[trigger]
        decoder.contains_key(rank) ==> encoder.contains_key(decoder[rank])
            && encoder[decoder[rank]] == rank
}

/// `bytes` are those of a special token with that rank.
pub open spec fn is_special_bytes(
    special_encoder: Map<Seq<char>, Rank>,
    rank: Rank,
    bytes: Seq<u8>,
) -> bool {
    exists|text: Seq<char>| #[trigger]
        special_encoder.contains_key(text) && special_encoder[text] == rank && bytes
            == encode_utf8(text)
}

/// `special_decoder` maps the rank of each special token to the bytes of a special token
/// with that rank, and no other rank to anything.
pub open spec fn is_special_inverse(
    special_encoder: Map<Seq<char>, Rank>,
    special_decoder: Map<Rank, Seq<u8>>,
) -> bool {
    &&& forall|text: Seq<char>| #[trigger]
        special_encoder.contains_key(text) ==> special_decoder.contains_key(special_encoder[text])
    &&& forall|rank: Rank| #[trigger]
        special_decoder.contains_key(rank) ==> is_special_bytes(
            special_encoder,
            rank,
            special_decoder[rank],
        )
}

/// The decoders of a vocabulary fit its encoders.
pub open spec fn vocab_wf(v: Vocab) -> bool {
    &&& is_inverse(v.encoder, v.decoder)
    &&& is_special_inverse(v.special_encoder, v.special_decoder)
}

/// The bytes that a token decodes to: those of the regular token, else those of the
/// special token. A token without bytes is none.
pub open spec fn bytes_of_token(v: Vocab, token: Rank) -> Option<Seq<u8>> {
    if v.decoder.contains_key(token) && v.decoder[token].len() > 0 {
        Some(v.decoder[token])
    } else if v.special_decoder.contains_key(token) && v.special_decoder[token].len() > 0 {
        Some(v.special_decoder[token])
    } else {
        None
    }
}

/// The bytes that are listed for a token: those of the regular token, else those of the
/// special token.
pub open spec fn listed_bytes(v: Vocab, token: Rank) -> Option<Seq<u8>> {
    if v.decoder.contains_key(token) {
        Some(v.decoder[token])
    } else {
        v.special_decoder.get(token)
    }
}

/// The bytes that the tokens decode to, or the first token that decodes to none.
pub open spec fn decoded(v: Vocab, tokens: Seq<Rank>) -> Result<Seq<u8>, Rank>
    decreases tokens.len(),
{
    if tokens.len() == 0 {
        Ok(Seq::empty())
    } else {
        match decoded(v, tokens.drop_last()) {
            Ok(bytes) => match bytes_of_token(v, tokens.last()) {
                Some(more) => Ok(bytes + more),
                None => Err(tokens.last()),
            },
            Err(token) => Err(token),
        }
    }
}

/// What encoding a text comes to.
#[verifier::ext_equal]
pub enum Encoding {
    /// The tokens, and how many of them come from the last piece; no token does where the
    /// text ends with a special token.
    Tokens(Seq<Rank>, nat),
    /// The search for pieces fails, with this message.
    Fails(Seq<char>),
    /// There is no answer: a piece has a part without a rank, or a search does not give
    /// ranges of whole characters, fails or does not end.
    Undefined,
}

/// The tokens of a piece: its own rank where it is a token, else those of byte pair
/// encoding, where it has an answer.
pub open spec fn piece_tokens(encoder: Map<Seq<u8>, Rank>, piece: Seq<u8>) -> Option<Seq<Rank>> {
    if encoder.contains_key(piece) {
        Some(seq![encoder[piece]])
    } else if bpe_encodable(encoder, piece) {
        Some(bpe_encode(encoder, piece))
    } else {
        None
    }
}

/// What a message says of a failed search.
pub open spec fn search_message(message: Seq<char>) -> Seq<char> {
    "Regex error while tokenizing: "@ + message
}

/// The encoding of the pieces of a text that a search found.
pub open spec fn encoding_of_items(
    encoder: Map<Seq<u8>, Rank>,
    text: Seq<char>,
    items: Seq<Result<(usize, usize), Seq<char>>>,
) -> Encoding
    decreases items.len(),
{
    if items.len() == 0 {
        Encoding::Tokens(Seq::empty(), 0)
    } else {
        match encoding_of_items(encoder, text, items.drop_last()) {
            Encoding::Tokens(tokens, _) => match items.last() {
                Ok((start, end)) => if is_text_range(text, start as int, end as int) {
                    match piece_tokens(encoder, bytes_between(text, start as int, end as int)) {
                        Some(more) => Encoding::Tokens(tokens + more, more.len()),
                        None => Encoding::Undefined,
                    }
                } else {
                    Encoding::Undefined
                },
                Err(message) => Encoding::Fails(search_message(message)),
            },
            other => other,
        }
    }
}

/// A search of a text gives fewer items than this: a match for each of its bytes, one at
/// its end, and an error. A search that gives as many stands still.
pub open spec fn search_limit(text: Seq<char>) -> nat {
    if encode_utf8(text).len() + 3 <= usize::MAX {
        encode_utf8(text).len() + 3
    } else {
        usize::MAX as nat
    }
}

/// The encoding of a stretch of text whose pieces a search found, and of the special
/// token behind it, if there is one.
pub open spec fn segment_encoding(
    v: Vocab,
    text: Seq<char>,
    items: Seq<Result<(usize, usize), Seq<char>>>,
    special: Option<Seq<char>>,
) -> Encoding {
    match (encoding_of_items(v.encoder, text, items), special) {
        (Encoding::Tokens(tokens, _), Some(special)) => if v.special_encoder.contains_key(
            special,
        ) {
            Encoding::Tokens(tokens.push(v.special_encoder[special]), 0)
        } else {
            Encoding::Undefined
        },
        (other, _) => other,
    }
}

/// The encoding of a stretch of text and of the special token behind it, if there is one.
pub open spec fn stretch_encoding(
    v: Vocab,
    text: Seq<char>,
    special: Option<Seq<char>>,
) -> Encoding {
    let items = all_matches(v.regex, text, search_limit(text));
    if items.len() < search_limit(text) {
        segment_encoding(v, text, items, special)
    } else {
        Encoding::Undefined
    }
}

/// The encoding of a text with regular tokens only.
pub open spec fn ordinary_encoding(v: Vocab, text: Seq<char>) -> Encoding {
    stretch_encoding(v, text, None)
}

/// The tokens, followed by those of an encoding.
pub open spec fn behind(tokens: Seq<Rank>, encoding: Encoding) -> Encoding {
    match encoding {
        Encoding::Tokens(rest, last) => Encoding::Tokens(tokens + rest, last),
        other => other,
    }
}

/// The first start of a character at or behind a position.
pub open spec fn char_start_from(bytes: Seq<u8>, pos: int) -> int
    decreases bytes.len() - pos,
{
    if pos >= bytes.len() || is_char_boundary(bytes, pos) {
        pos
    } else {
        char_start_from(bytes, pos + 1)
    }
}

/// There is a start of a character at or behind a position within the bytes or at their
/// end, and none between.
pub proof fn lemma_char_start_from(bytes: Seq<u8>, pos: int)
    requires
        0 <= pos,
    ensures
        pos <= char_start_from(bytes, pos),
        pos <= bytes.len() ==> char_start_from(bytes, pos) <= bytes.len(),
        pos > bytes.len() ==> char_start_from(bytes, pos) == pos,
        valid_utf8(bytes) && pos <= bytes.len() ==> is_char_boundary(
            bytes,
            char_start_from(bytes, pos),
        ),
        forall|i: int|
            pos <= i < char_start_from(bytes, pos) ==> !#[trigger] is_char_boundary(bytes, i),
    decreases bytes.len() - pos,
{
    if valid_utf8(bytes) {
        is_char_boundary_start_end_of_seq(bytes);
    }
    if pos < bytes.len() && !is_char_boundary(bytes, pos) {
        lemma_char_start_from(bytes, pos + 1);
    }
}

/// What a search for special tokens comes to.
pub enum SpecialSearch {
    /// An allowed special token stands in this range.
    Found(usize, usize),
    /// There is none.
    Absent,
    /// What was found is not allowed: the search goes on from here.
    Again(usize),
    /// The search fails, or does not give a range of whole characters from where it began.
    Undefined,
}

/// What the first match at or behind a position comes to. A search goes on behind the
/// first byte of a special token that is not allowed: from the next character, since no
/// match starts within a character.
pub open spec fn judge_special(
    text: Seq<char>,
    allowed: Set<Seq<char>>,
    from: int,
    found: Result<Option<(usize, usize)>, Seq<char>>,
) -> SpecialSearch {
    match found {
        Ok(Some((start, end))) => {
            let again = char_start_from(encode_utf8(text), start + 1);
            if start < from || !is_text_range(text, start as int, end as int) {
                SpecialSearch::Undefined
            } else if allowed.contains(text_between(text, start as int, end as int)) {
                SpecialSearch::Found(start, end)
            } else if again <= encode_utf8(text).len() {
                SpecialSearch::Again(again as usize)
            } else {
                SpecialSearch::Absent
            }
        },
        Ok(None) => SpecialSearch::Absent,
        Err(_) => SpecialSearch::Undefined,
    }
}

/// What a search of a text for an allowed special token comes to, from a position on.
pub open spec fn next_special(
    regex: Regex,
    text: Seq<char>,
    allowed: Set<Seq<char>>,
    from: int,
) -> SpecialSearch
    decreases encode_utf8(text).len() - from,
{
    match judge_special(text, allowed, from, first_match(regex, text, from as nat)) {
        SpecialSearch::Again(again) => if from < again <= encode_utf8(text).len() {
            next_special(regex, text, allowed, again as int)
        } else {
            SpecialSearch::Undefined
        },
        other => other,
    }
}

/// The encoding of a text from a position on, with the allowed special tokens.
pub open spec fn encoding_from(
    v: Vocab,
    text: Seq<char>,
    allowed: Set<Seq<char>>,
    from: int,
) -> Encoding
    decreases encode_utf8(text).len() - from,
{
    let len = encode_utf8(text).len() as int;
    match next_special(v.special_regex, text, allowed, from) {
        SpecialSearch::Found(start, end) => match stretch_encoding(
            v,
            text_between(text, from, start as int),
            Some(text_between(text, start as int, end as int)),
        ) {
            Encoding::Tokens(tokens, _) => if from < end <= len {
                behind(tokens, encoding_from(v, text, allowed, end as int))
            } else {
                Encoding::Undefined
            },
            other => other,
        },
        SpecialSearch::Absent => stretch_encoding(v, text_between(text, from, len), None),
        _ => Encoding::Undefined,
    }
}

/// The encoding of a text with the allowed special tokens.
pub open spec fn encoding(v: Vocab, text: Seq<char>, allowed: Set<Seq<char>>) -> Encoding {
    encoding_from(v, text, allowed, 0)
}

} // verus!
