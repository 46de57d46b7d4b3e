//! What holds of encoding and decoding together.
use fancy_regex::Regex;
use vstd::prelude::*;
use vstd::utf8::*;

use crate::bpe::Rank;
use crate::bpe::{
    bpe_encodable, bpe_encode, bpe_split, concat, law_split_concat, law_split_parts,
    ranks_of_parts,
};
use crate::encode::lemma_next_special;
use crate::encode_bytes::{
    bytes_encoding, lemma_valid_up_to, rank_of_token, valid_up_to, with_piece, with_rest,
};
use crate::pattern::{all_matches, first_match};
use crate::text::{
    bytes_between, is_text_range, lemma_boundary_in_range, lemma_boundary_in_rest, text_between,
};
use crate::unstable::{
    completions, cut, cut_before, ends_with_space, is_cut, is_straddling, is_whole,
    lemma_items_regular, lemma_last_bounded, lemma_retokenised_regular, lemma_unstable_count,
    retokenised, straddling, unstable_count, unstable_of_tokens,
};
use crate::vocab::{
    Encoding, SpecialSearch, Vocab, bytes_of_token, decoded, encoding, encoding_from,
    encoding_of_items, judge_special, listed_bytes, next_special, ordinary_encoding, piece_tokens,
    search_limit, stretch_encoding, vocab_wf,
};

verus! {

/// Decoding tokens in two parts gives what decoding them together gives.
pub proof fn law_decode_add(v: Vocab, a: Seq<Rank>, b: Seq<Rank>)
    ensures
        decoded(v, a + b) == (match (decoded(v, a), decoded(v, b)) {
            (Ok(front), Ok(back)) => Ok::<Seq<u8>, Rank>(front + back),
            (Err(token), _) => Err(token),
            (Ok(_), Err(token)) => Err(token),
        }),
    decreases b.len(),
{
    if b.len() == 0 {
        assert(a + b =~= a);
        if let Ok(front) = decoded(v, a) {
            assert(front + Seq::<u8>::empty() =~= front);
        }
    } else {
        law_decode_add(v, a, b.drop_last());
        assert((a + b).drop_last() =~= a + b.drop_last());
        assert((a + b).last() == b.last());
        if let (Ok(front), Ok(back)) = (decoded(v, a), decoded(v, b.drop_last())) {
            if let Some(more) = bytes_of_token(v, b.last()) {
                assert((front + back) + more =~= front + (back + more));
            }
        }
    }
}

/// Tokens decode exactly where each of them decodes to some bytes.
pub proof fn law_decode_succeeds(v: Vocab, tokens: Seq<Rank>)
    ensures
        decoded(v, tokens) is Ok <==> forall|i: int|
            0 <= i < tokens.len() ==> bytes_of_token(v, #[trigger] tokens[i]) is Some,
    decreases tokens.len(),
{
    if tokens.len() > 0 {
        let before = tokens.drop_last();
        law_decode_succeeds(v, before);
        if decoded(v, tokens) is Ok {
            assert forall|i: int| 0 <= i < tokens.len() implies bytes_of_token(
                v,
                #[trigger] tokens[i],
            ) is Some by {
                if i < before.len() {
                    assert(before[i] == tokens[i]);
                }
            }
        } else if decoded(v, before) is Err {
            let i = choose|i: int|
                0 <= i < before.len() && bytes_of_token(v, #[trigger] before[i]) is None;
            assert(bytes_of_token(v, tokens[i]) is None);
        }
    }
}

/// Both ways to look up the bytes of a token agree, but for bytes that are empty: a token
/// that is listed with some bytes decodes to them, and one that is not listed to none.
pub proof fn law_lookups_agree(v: Vocab, token: Rank)
    ensures
        listed_bytes(v, token) matches Some(bytes) ==> (bytes.len() > 0 ==> bytes_of_token(v, token)
            == Some(bytes)),
        listed_bytes(v, token) is None ==> bytes_of_token(v, token) is None,
{
}

/// The rank of a regular token decodes to its bytes, unless it has none.
pub proof fn law_regular_token_decodes(v: Vocab, bytes: Seq<u8>)
    requires
        vocab_wf(v),
        v.encoder.contains_key(bytes),
        bytes.len() > 0,
    ensures
        decoded(v, seq![v.encoder[bytes]]) == Ok::<Seq<u8>, Rank>(bytes),
{
    let token = v.encoder[bytes];
    assert(seq![token].drop_last() =~= Seq::<Rank>::empty());
    assert(decoded(v, seq![token].drop_last()) == Ok::<Seq<u8>, Rank>(Seq::empty()));
    assert(Seq::<u8>::empty() + bytes =~= bytes);
}

/// The bytes of a regular token are those of no other: its rank is found again.
pub proof fn law_rank_is_found_again(v: Vocab, token: Rank)
    requires
        vocab_wf(v),
        v.decoder.contains_key(token),
    ensures
        listed_bytes(v, token) matches Some(bytes) && rank_of_token(v, bytes) == Some(token),
{
}

/// The bytes of a regular token are found again by its rank.
pub proof fn law_bytes_are_found_again(v: Vocab, bytes: Seq<u8>)
    requires
        vocab_wf(v),
        v.encoder.contains_key(bytes),
    ensures
        rank_of_token(v, bytes) matches Some(token) && listed_bytes(v, token) == Some(bytes),
{
}

/// A special token is found by its bytes, unless they are those of a regular token.
pub proof fn law_special_token_is_found(v: Vocab, text: Seq<char>)
    requires
        v.special_encoder.contains_key(text),
        !v.encoder.contains_key(encode_utf8(text)),
    ensures
        rank_of_token(v, encode_utf8(text)) == Some(v.special_encoder[text]),
{
    encode_utf8_valid_utf8(text);
    encode_utf8_decode_utf8(text);
}

/// Without special tokens, the tokens of a text are regular ones.
pub proof fn law_ordinary_tokens_are_regular(v: Vocab, text: Seq<char>)
    requires
        vocab_wf(v),
    ensures
        ordinary_encoding(v, text) matches Encoding::Tokens(tokens, _) ==> forall|i: int|
            0 <= i < tokens.len() ==> v.decoder.contains_key(#[trigger] tokens[i]),
{
    lemma_items_regular(v, text, all_matches(v.regex, text, search_limit(text)));
}

/// Every token sequence that unstable bytes and a straddling token are cut into has an
/// answer: its tokens are regular ones.
pub proof fn law_retokenised_is_cut(v: Vocab, bytes: Seq<u8>, len: int)
    requires
        vocab_wf(v),
    ensures
        retokenised(v, bytes) matches Some(tokens) ==> cut(v, tokens, len) is Some,
{
    lemma_retokenised_regular(v, bytes);
    if let Some(tokens) = retokenised(v, bytes) {
        lemma_regular_are_cut(v, tokens, len);
    }
}

/// Regular tokens can be cut to any length.
proof fn lemma_regular_are_cut(v: Vocab, tokens: Seq<Rank>, len: int)
    requires
        forall|i: int| 0 <= i < tokens.len() ==> v.decoder.contains_key(#[trigger] tokens[i]),
    ensures
        cut(v, tokens, len) is Some,
    decreases tokens.len(),
{
    if tokens.len() > 0 {
        let rest = tokens.skip(1);
        assert forall|i: int| 0 <= i < rest.len() implies v.decoder.contains_key(
            #[trigger] rest[i],
        ) by {
            assert(rest[i] == tokens[i + 1]);
        }
        lemma_regular_are_cut(v, rest, len - v.decoder[tokens[0]].len());
    }
}

/// The ranks of parts that are tokens decode to the parts.
proof fn lemma_parts_decode(v: Vocab, parts: Seq<Seq<u8>>)
    requires
        vocab_wf(v),
        forall|i: int|
            0 <= i < parts.len() ==> v.encoder.contains_key(#[trigger] parts[i]) && parts[i].len()
                > 0,
    ensures
        decoded(v, ranks_of_parts(v.encoder, parts)) == Ok::<Seq<u8>, Rank>(concat(parts)),
    decreases parts.len(),
{
    let ranks = ranks_of_parts(v.encoder, parts);
    if parts.len() > 0 {
        let before = parts.drop_last();
        assert forall|i: int| 0 <= i < before.len() implies v.encoder.contains_key(
            #[trigger] before[i],
        ) && before[i].len() > 0 by {
            assert(before[i] == parts[i]);
        }
        lemma_parts_decode(v, before);
        assert(ranks.drop_last() =~= ranks_of_parts(v.encoder, before));
        assert(v.encoder.contains_key(parts[parts.len() - 1]));
    }
}

/// The tokens of a piece decode to the piece, unless it is empty.
pub proof fn law_piece_decodes(v: Vocab, piece: Seq<u8>)
    requires
        vocab_wf(v),
        piece.len() > 0,
    ensures
        piece_tokens(v.encoder, piece) matches Some(tokens) ==> decoded(v, tokens) == Ok::<
            Seq<u8>,
            Rank,
        >(piece),
{
    if v.encoder.contains_key(piece) {
        law_regular_token_decodes(v, piece);
    } else if bpe_encodable(v.encoder, piece) {
        law_bpe_decodes(v, piece);
    }
}

/// The tokens that byte pair encoding gives for some bytes decode to them.
pub proof fn law_bpe_decodes(v: Vocab, piece: Seq<u8>)
    requires
        vocab_wf(v),
        bpe_encodable(v.encoder, piece),
    ensures
        decoded(v, bpe_encode(v.encoder, piece)) == Ok::<Seq<u8>, Rank>(piece),
{
    let split = bpe_split(v.encoder, piece);
    assert forall|i: int| 0 <= i < split.len() implies v.encoder.contains_key(#[trigger] split[i])
        && split[i].len() > 0 by {
        law_split_parts(v.encoder, piece, i);
    }
    lemma_parts_decode(v, split);
    law_split_concat(v.encoder, piece);
}

/// The ranges that a search found, one behind the other from the start of a text on, up to
/// the byte `end`.
pub open spec fn tiles(items: Seq<Result<(usize, usize), Seq<char>>>, end: int) -> bool
    decreases items.len(),
{
    if items.len() == 0 {
        end == 0
    } else {
        match items.last() {
            Ok((last_start, last_end)) => last_start < last_end && last_end == end && tiles(
                items.drop_last(),
                last_start as int,
            ),
            Err(_) => false,
        }
    }
}

/// A search for pieces covers a text: its ranges, one behind the other, are the whole text.
pub open spec fn is_tiled(v: Vocab, text: Seq<char>) -> bool {
    tiles(all_matches(v.regex, text, search_limit(text)), encode_utf8(text).len() as int)
}

/// The tokens of pieces that cover the start of a text decode to its bytes.
proof fn lemma_items_decode(
    v: Vocab,
    text: Seq<char>,
    items: Seq<Result<(usize, usize), Seq<char>>>,
    end: int,
)
    requires
        vocab_wf(v),
        tiles(items, end),
        encoding_of_items(v.encoder, text, items) is Tokens,
    ensures
        0 <= end <= encode_utf8(text).len(),
        decoded(v, encoding_of_items(v.encoder, text, items)->Tokens_0) == Ok::<Seq<u8>, Rank>(
            bytes_between(text, 0, end),
        ),
    decreases items.len(),
{
    let bytes = encode_utf8(text);
    encode_utf8_valid_utf8(text);
    if items.len() == 0 {
        assert(bytes.subrange(0, 0) =~= Seq::<u8>::empty());
    } else if let Ok((start, last_end)) = items.last() {
        lemma_items_decode(v, text, items.drop_last(), start as int);
        let piece = bytes_between(text, start as int, end);
        lemma_boundary_in_range(bytes, end);
        law_piece_decodes(v, piece);
        let before = encoding_of_items(v.encoder, text, items.drop_last())->Tokens_0;
        let more = piece_tokens(v.encoder, piece)->0;
        law_decode_add(v, before, more);
        assert(bytes.subrange(0, start as int) + piece =~= bytes.subrange(0, end));
    }
}

/// Decoding undoes encoding: where the pieces cover a text, its tokens decode to its bytes.
pub proof fn law_decode_undoes_ordinary(v: Vocab, text: Seq<char>)
    requires
        vocab_wf(v),
        is_tiled(v, text),
        ordinary_encoding(v, text) is Tokens,
    ensures
        decoded(v, ordinary_encoding(v, text)->Tokens_0) == Ok::<Seq<u8>, Rank>(encode_utf8(text)),
{
    let items = all_matches(v.regex, text, search_limit(text));
    lemma_items_decode(v, text, items, encode_utf8(text).len() as int);
    assert(bytes_between(text, 0, encode_utf8(text).len() as int) =~= encode_utf8(text));
}

/// No regular token is empty.
pub open spec fn no_empty_token(v: Vocab) -> bool {
    !v.encoder.contains_key(Seq::empty())
}

/// The bytes of the pieces that a search found, behind each other.
pub open spec fn found_bytes(
    text: Seq<char>,
    items: Seq<Result<(usize, usize), Seq<char>>>,
) -> Seq<u8>
    decreases items.len(),
{
    if items.len() == 0 {
        Seq::empty()
    } else {
        match items.last() {
            Ok((start, end)) => found_bytes(text, items.drop_last()) + bytes_between(
                text,
                start as int,
                end as int,
            ),
            Err(_) => found_bytes(text, items.drop_last()),
        }
    }
}

/// The tokens of pieces decode to the pieces behind each other.
proof fn lemma_found_bytes_decode(
    v: Vocab,
    text: Seq<char>,
    items: Seq<Result<(usize, usize), Seq<char>>>,
)
    requires
        vocab_wf(v),
        no_empty_token(v),
        encoding_of_items(v.encoder, text, items) is Tokens,
    ensures
        decoded(v, encoding_of_items(v.encoder, text, items)->Tokens_0) == Ok::<Seq<u8>, Rank>(
            found_bytes(text, items),
        ),
    decreases items.len(),
{
    if items.len() > 0 {
        lemma_found_bytes_decode(v, text, items.drop_last());
        if let Ok((start, end)) = items.last() {
            let piece = bytes_between(text, start as int, end as int);
            if piece.len() == 0 {
                assert(piece =~= Seq::<u8>::empty());
            }
            law_piece_decodes(v, piece);
            law_decode_add(
                v,
                encoding_of_items(v.encoder, text, items.drop_last())->Tokens_0,
                piece_tokens(v.encoder, piece)->0,
            );
        }
    }
}

/// The tokens of a text decode to the pieces that the search found, behind each other: what
/// stands between them is lost, and nothing else.
pub proof fn law_ordinary_decodes_to_pieces(v: Vocab, text: Seq<char>)
    requires
        vocab_wf(v),
        no_empty_token(v),
        ordinary_encoding(v, text) is Tokens,
    ensures
        decoded(v, ordinary_encoding(v, text)->Tokens_0) == Ok::<Seq<u8>, Rank>(
            found_bytes(text, all_matches(v.regex, text, search_limit(text))),
        ),
{
    lemma_found_bytes_decode(v, text, all_matches(v.regex, text, search_limit(text)));
}

/// Every allowed special token decodes to its own text: it is not empty, and its rank is
/// that of no other token.
pub open spec fn specials_decode(v: Vocab, allowed: Set<Seq<char>>) -> bool {
    forall|text: Seq<char>| #[trigger]
        v.special_encoder.contains_key(text) && allowed.contains(text) ==> bytes_of_token(
            v,
            v.special_encoder[text],
        ) == Some(encode_utf8(text))
}

/// The searches for pieces cover the stretches of a text between its special tokens, from
/// a position on.
pub open spec fn is_tiled_from(
    v: Vocab,
    text: Seq<char>,
    allowed: Set<Seq<char>>,
    from: int,
) -> bool
    decreases encode_utf8(text).len() - from,
{
    let len = encode_utf8(text).len() as int;
    match next_special(v.special_regex, text, allowed, from) {
        SpecialSearch::Found(start, end) => {
            &&& is_tiled(v, text_between(text, from, start as int))
            &&& from < end <= len ==> is_tiled_from(v, text, allowed, end as int)
        },
        _ => is_tiled(v, text_between(text, from, len)),
    }
}

/// The bytes between two starts of characters are those of the text between them.
pub proof fn lemma_text_between(text: Seq<char>, start: int, end: int)
    requires
        is_text_range(text, start, end),
    ensures
        0 <= start <= end <= encode_utf8(text).len(),
        encode_utf8(text_between(text, start, end)) == bytes_between(text, start, end),
{
    let bytes = encode_utf8(text);
    encode_utf8_valid_utf8(text);
    lemma_boundary_in_range(bytes, start);
    lemma_boundary_in_range(bytes, end);
    valid_utf8_split(bytes, start);
    let rest = bytes.subrange(start, bytes.len() as int);
    lemma_boundary_in_rest(bytes, start, end);
    valid_utf8_split(rest, end - start);
    assert(rest.subrange(0, end - start) =~= bytes.subrange(start, end));
    decode_utf8_encode_utf8(bytes.subrange(start, end));
}

/// The tokens of a stretch of text and of the special token behind it decode to their
/// bytes.
proof fn lemma_stretch_decodes(
    v: Vocab,
    text: Seq<char>,
    special: Option<Seq<char>>,
    allowed: Set<Seq<char>>,
)
    requires
        vocab_wf(v),
        specials_decode(v, allowed),
        special matches Some(special) ==> allowed.contains(special),
        is_tiled(v, text),
        stretch_encoding(v, text, special) is Tokens,
    ensures
        decoded(v, stretch_encoding(v, text, special)->Tokens_0) == Ok::<Seq<u8>, Rank>(
            encode_utf8(text) + (match special {
                Some(special) => encode_utf8(special),
                None => Seq::empty(),
            }),
        ),
{
    law_decode_undoes_ordinary(v, text);
    let tokens = ordinary_encoding(v, text)->Tokens_0;
    match special {
        Some(special) => {
            let rank = v.special_encoder[special];
            assert(tokens.push(rank).drop_last() =~= tokens);
        },
        None => {
            assert(encode_utf8(text) + Seq::<u8>::empty() =~= encode_utf8(text));
        },
    }
}

/// The tokens of a text from a position on decode to its bytes from there.
proof fn lemma_encoding_from_decodes(v: Vocab, text: Seq<char>, allowed: Set<Seq<char>>, from: int)
    requires
        vocab_wf(v),
        specials_decode(v, allowed),
        is_char_boundary(encode_utf8(text), from),
        is_tiled_from(v, text, allowed, from),
        encoding_from(v, text, allowed, from) is Tokens,
    ensures
        0 <= from <= encode_utf8(text).len(),
        decoded(v, encoding_from(v, text, allowed, from)->Tokens_0) == Ok::<Seq<u8>, Rank>(
            encode_utf8(text).skip(from),
        ),
    decreases encode_utf8(text).len() - from,
{
    let bytes = encode_utf8(text);
    let len = bytes.len() as int;
    encode_utf8_valid_utf8(text);
    lemma_boundary_in_range(bytes, from);
    is_char_boundary_start_end_of_seq(bytes);
    lemma_next_special(v.special_regex, text, allowed, from);
    match next_special(v.special_regex, text, allowed, from) {
        SpecialSearch::Found(start, end) => {
            let part = text_between(text, from, start as int);
            let special = text_between(text, start as int, end as int);
            lemma_text_between(text, from, start as int);
            lemma_text_between(text, start as int, end as int);
            lemma_stretch_decodes(v, part, Some(special), allowed);
            lemma_encoding_from_decodes(v, text, allowed, end as int);
            let tokens = stretch_encoding(v, part, Some(special))->Tokens_0;
            let rest = encoding_from(v, text, allowed, end as int)->Tokens_0;
            law_decode_add(v, tokens, rest);
            assert((bytes_between(text, from, start as int) + bytes_between(
                text,
                start as int,
                end as int,
            )) + bytes.skip(end as int) =~= bytes.skip(from));
        },
        _ => {
            lemma_text_between(text, from, len);
            lemma_stretch_decodes(v, text_between(text, from, len), None, allowed);
            assert(bytes_between(text, from, len) + Seq::<u8>::empty() =~= bytes.skip(from));
        },
    }
}

/// Decoding undoes encoding, also with special tokens: where the pieces cover the text
/// between its special tokens, its tokens decode to its bytes.
pub proof fn law_decode_undoes_encode(v: Vocab, text: Seq<char>, allowed: Set<Seq<char>>)
    requires
        vocab_wf(v),
        specials_decode(v, allowed),
        is_tiled_from(v, text, allowed, 0),
        encoding(v, text, allowed) is Tokens,
    ensures
        decoded(v, encoding(v, text, allowed)->Tokens_0) == Ok::<Seq<u8>, Rank>(encode_utf8(text)),
{
    encode_utf8_valid_utf8(text);
    is_char_boundary_start_end_of_seq(encode_utf8(text));
    lemma_encoding_from_decodes(v, text, allowed, 0);
    assert(encode_utf8(text).skip(0) =~= encode_utf8(text));
}

/// Without allowed special tokens, none is found.
proof fn lemma_nothing_allowed(regex: Regex, text: Seq<char>, from: int)
    ensures
        !(next_special(regex, text, Set::empty(), from) is Found),
    decreases encode_utf8(text).len() - from,
{
    let found = first_match(regex, text, from as nat);
    if let SpecialSearch::Again(again) = judge_special(text, Set::empty(), from, found) {
        if from < again <= encode_utf8(text).len() {
            lemma_nothing_allowed(regex, text, again as int);
        }
    }
}

/// A text in which the search finds no allowed special token is encoded with regular tokens
/// only, whatever else stands in it.
pub proof fn law_none_found_is_ordinary(v: Vocab, text: Seq<char>, allowed: Set<Seq<char>>)
    requires
        next_special(v.special_regex, text, allowed, 0) is Absent,
    ensures
        encoding(v, text, allowed) == ordinary_encoding(v, text),
{
    assert(bytes_between(text, 0, encode_utf8(text).len() as int) =~= encode_utf8(text));
    encode_utf8_decode_utf8(text);
}

/// Without allowed special tokens, a text is encoded with regular tokens only, unless the
/// search for special tokens itself has no answer.
pub proof fn law_nothing_allowed_is_ordinary(v: Vocab, text: Seq<char>)
    requires
        !(next_special(v.special_regex, text, Set::empty(), 0) is Undefined),
    ensures
        encoding(v, text, Set::empty()) == ordinary_encoding(v, text),
{
    lemma_nothing_allowed(v.special_regex, text, 0);
    lemma_never_again(v.special_regex, text, Set::empty(), 0);
    law_none_found_is_ordinary(v, text, Set::empty());
}

/// A search goes on until it has an answer.
proof fn lemma_never_again(
    regex: Regex,
    text: Seq<char>,
    allowed: Set<Seq<char>>,
    from: int,
)
    ensures
        !(next_special(regex, text, allowed, from) is Again),
    decreases encode_utf8(text).len() - from,
{
    let found = first_match(regex, text, from as nat);
    if let SpecialSearch::Again(again) = judge_special(text, allowed, from, found) {
        if from < again <= encode_utf8(text).len() {
            lemma_never_again(regex, text, allowed, again as int);
        }
    }
}

/// The stable tokens of a text that may go on are its first ones, and none of the last
/// piece is among them.
pub proof fn law_stable_tokens_first(v: Vocab, tokens: Seq<Rank>, last: nat)
    requires
        last <= tokens.len(),
    ensures
        unstable_of_tokens(v, tokens, last) matches Some((stable, _)) ==> stable.is_prefix_of(
            tokens,
        ) && stable.len() + last <= tokens.len(),
{
    lemma_unstable_count(v, tokens, last);
    if last == 0 {
        assert(tokens =~= tokens.subrange(0, tokens.len() as int));
    } else {
        let stable = tokens.len() - unstable_count(v, tokens, last);
        assert(tokens.take(stable) =~= tokens.subrange(0, stable));
    }
}

/// As many tokens as it takes to cover some bytes decode to the start of what all of them
/// decode to: to as many bytes or more, or to all.
proof fn lemma_cut_decodes(v: Vocab, tokens: Seq<Rank>, len: int)
    requires
        decoded(v, tokens) is Ok,
        cut(v, tokens, len) is Some,
    ensures
        decoded(v, cut(v, tokens, len)->0) is Ok,
        ({
            let all = decoded(v, tokens)->Ok_0;
            let some = decoded(v, cut(v, tokens, len)->0)->Ok_0;
            &&& some.is_prefix_of(all)
            &&& some.len() >= len || some == all
        }),
    decreases tokens.len(),
{
    let all = decoded(v, tokens)->Ok_0;
    if tokens.len() == 0 {
        assert(cut(v, tokens, len)->0 =~= tokens);
        assert(all =~= all.subrange(0, all.len() as int));
    } else {
        let first = seq![tokens[0]];
        let rest = tokens.skip(1);
        assert(tokens =~= first + rest);
        law_decode_add(v, first, rest);
        assert(first.drop_last() =~= Seq::<Rank>::empty());
        assert(decoded(v, first.drop_last()) == Ok::<Seq<u8>, Rank>(Seq::empty()));
        let bytes = bytes_of_token(v, tokens[0])->0;
        assert(Seq::<u8>::empty() + bytes =~= bytes);
        let own = v.decoder[tokens[0]].len();
        lemma_token_not_shorter(v, tokens[0]);
        if own >= len {
            assert(bytes =~= all.subrange(0, bytes.len() as int));
        } else {
            lemma_cut_decodes(v, rest, len - own);
            let kept = cut(v, rest, len - own)->0;
            let some = decoded(v, kept)->Ok_0;
            let others = decoded(v, rest)->Ok_0;
            law_decode_add(v, first, kept);
            assert(bytes + some =~= (bytes + others).subrange(0, (bytes + some).len() as int)) by {
                assert(some =~= others.subrange(0, some.len() as int));
            }
        }
    }
}

/// A token decodes to no fewer bytes than the regular token of its rank has.
proof fn lemma_token_not_shorter(v: Vocab, token: Rank)
    requires
        v.decoder.contains_key(token),
        bytes_of_token(v, token) is Some,
    ensures
        v.decoder[token].len() <= bytes_of_token(v, token)->0.len(),
{
}

/// The search for pieces covers every text that unstable bytes and a token that straddles
/// their end make up.
pub open spec fn straddlings_tiled(v: Vocab, unstable: Seq<u8>) -> bool {
    forall|at: int, token: Seq<u8>|
        #![trigger straddling(v, unstable, at, token)]
        1 <= at < unstable.len() && v.encoder.contains_key(token) && unstable.skip(
            at,
        ).is_prefix_of(token) && valid_utf8(unstable.take(at) + token) ==> is_tiled(
            v,
            decode_utf8(unstable.take(at) + token),
        )
}

/// The tokens of a completion with a straddling token decode to what starts with the
/// unstable bytes.
proof fn lemma_straddling_extends(v: Vocab, unstable: Seq<u8>, at: int, token: Seq<u8>)
    requires
        vocab_wf(v),
        straddlings_tiled(v, unstable),
        1 <= at < unstable.len(),
        v.encoder.contains_key(token),
        unstable.skip(at).is_prefix_of(token),
        straddling(v, unstable, at, token) is Some,
    ensures
        decoded(v, straddling(v, unstable, at, token)->0) matches Ok(bytes)
            && unstable.is_prefix_of(bytes),
{
    let possibility = unstable.take(at) + token;
    let tokens = retokenised(v, possibility)->0;
    if valid_utf8(possibility) {
        law_decode_undoes_ordinary(v, decode_utf8(possibility));
        decode_utf8_encode_utf8(possibility);
    } else {
        law_bpe_decodes(v, possibility);
    }
    lemma_cut_decodes(v, tokens, unstable.len() as int);
    let suffix = unstable.skip(at);
    let some = decoded(v, straddling(v, unstable, at, token)->0)->Ok_0;
    assert(unstable =~= some.subrange(0, unstable.len() as int)) by {
        assert(suffix =~= token.subrange(0, suffix.len() as int));
        assert(some =~= possibility.subrange(0, some.len() as int));
        assert forall|i: int| 0 <= i < unstable.len() implies unstable[i] == some[i] by {
            if i >= at {
                assert(suffix[i - at] == token[i - at]);
            }
        }
    }
}

/// Whatever a text goes on with, its bytes stay: each sequence of tokens that unstable
/// bytes may come to decodes to what starts with them.
pub proof fn law_completions_extend(v: Vocab, unstable: Seq<u8>, tokens: Seq<Rank>)
    requires
        vocab_wf(v),
        unstable.len() > 0,
        straddlings_tiled(v, unstable),
        completions(v, unstable).contains(tokens),
    ensures
        decoded(v, tokens) matches Ok(bytes) && unstable.is_prefix_of(bytes),
{
    if is_whole(v, unstable, tokens) {
        let token = choose|token: Seq<u8>| #[trigger]
            v.encoder.contains_key(token) && unstable.is_prefix_of(token) && tokens
                == seq![v.encoder[token]];
        law_regular_token_decodes(v, token);
    } else if is_cut(v, unstable, tokens) {
        let c = choose|c: char| #[trigger]
            ends_with_space(unstable, c) && cut_before(v, unstable, c) == Some(tokens);
        let at = unstable.len() - encode_utf8(seq![c]).len();
        let front = unstable.take(at);
        let back = unstable.skip(at);
        law_bpe_decodes(v, front);
        law_bpe_decodes(v, back);
        law_decode_add(v, bpe_encode(v.encoder, front), bpe_encode(v.encoder, back));
        assert(front + back =~= unstable);
        assert(unstable =~= unstable.subrange(0, unstable.len() as int));
    } else {
        let at = choose|at: int|
            1 <= at < unstable.len() && #[trigger] is_straddling(v, unstable, at, tokens);
        let token = choose|token: Seq<u8>| #[trigger]
            v.encoder.contains_key(token) && unstable.skip(at).is_prefix_of(token) && straddling(
                v,
                unstable,
                at,
                token,
            ) == Some(tokens);
        lemma_straddling_extends(v, unstable, at, token);
    }
}

/// A token that starts with the unstable bytes is always among what they may come to.
pub proof fn law_whole_token_completes(v: Vocab, unstable: Seq<u8>, token: Seq<u8>)
    requires
        v.encoder.contains_key(token),
        unstable.is_prefix_of(token),
    ensures
        completions(v, unstable).contains(seq![v.encoder[token]]),
{
    assert(is_whole(v, unstable, seq![v.encoder[token]]));
}

/// Tokens and a piece behind them decode to their bytes and to the piece.
proof fn lemma_with_piece_decodes(v: Vocab, tokens: Seq<Rank>, piece: Seq<u8>)
    requires
        vocab_wf(v),
        decoded(v, tokens) is Ok,
        with_piece(v, tokens, piece) is Some,
    ensures
        decoded(v, with_piece(v, tokens, piece)->0) == Ok::<Seq<u8>, Rank>(
            decoded(v, tokens)->Ok_0 + piece,
        ),
{
    let bytes = decoded(v, tokens)->Ok_0;
    if piece.len() == 0 {
        assert(bytes + piece =~= bytes);
    } else {
        law_piece_decodes(v, piece);
        law_decode_add(v, tokens, piece_tokens(v.encoder, piece)->0);
    }
}

/// Decoding undoes encoding of the bytes behind a text, together with its last tokens.
pub proof fn law_decode_undoes_rest(v: Vocab, tokens: Seq<Rank>, last: nat, rest: Seq<u8>)
    requires
        vocab_wf(v),
        last <= tokens.len(),
        decoded(v, tokens) is Ok,
        with_rest(v, tokens, last, rest) is Some,
    ensures
        decoded(v, with_rest(v, tokens, last, rest)->0) == Ok::<Seq<u8>, Rank>(
            decoded(v, tokens)->Ok_0 + rest,
        ),
{
    lemma_unstable_count(v, tokens, last);
    let stable = tokens.len() - unstable_count(v, tokens, last);
    if stable < tokens.len() {
        assert(tokens.take(stable) + tokens.skip(stable) =~= tokens);
        law_decode_add(v, tokens.take(stable), tokens.skip(stable));
        let front = decoded(v, tokens.take(stable))->Ok_0;
        let unstable = decoded(v, tokens.skip(stable))->Ok_0;
        lemma_with_piece_decodes(v, tokens.take(stable), unstable + rest);
        assert(front + (unstable + rest) =~= (front + unstable) + rest);
    } else {
        lemma_with_piece_decodes(v, tokens, rest);
    }
}

/// The searches for pieces cover some bytes, as far as they are those of a text.
pub open spec fn bytes_tiled(v: Vocab, bytes: Seq<u8>) -> bool {
    if valid_utf8(bytes) {
        is_tiled(v, decode_utf8(bytes))
    } else {
        is_tiled_from(v, decode_utf8(bytes.take(valid_up_to(bytes))), Set::empty(), 0)
    }
}

/// Decoding undoes encoding of bytes, whether or not they are those of a text.
pub proof fn law_decode_undoes_bytes(v: Vocab, bytes: Seq<u8>)
    requires
        vocab_wf(v),
        bytes_tiled(v, bytes),
        bytes_encoding(v, bytes) is Some,
    ensures
        decoded(v, bytes_encoding(v, bytes)->0) == Ok::<Seq<u8>, Rank>(bytes),
{
    if valid_utf8(bytes) {
        law_decode_undoes_ordinary(v, decode_utf8(bytes));
        decode_utf8_encode_utf8(bytes);
    } else {
        lemma_valid_up_to(bytes);
        let len = valid_up_to(bytes);
        let text = decode_utf8(bytes.take(len));
        decode_utf8_encode_utf8(bytes.take(len));
        law_decode_undoes_encode(v, text, Set::empty());
        lemma_last_bounded(v, text, Set::empty(), 0);
        if let Encoding::Tokens(tokens, last) = encoding(v, text, Set::empty()) {
            law_decode_undoes_rest(v, tokens, last, bytes.skip(len));
            assert(bytes.take(len) + bytes.skip(len) =~= bytes);
        }
    }
}

} // verus!
