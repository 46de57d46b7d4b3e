//! Where encoding has an answer, and what a text that may go on can come to.
use vstd::prelude::*;
use vstd::utf8::*;

use crate::bpe::Rank;
use crate::bpe::{bpe_encodable, bpe_encode, law_single_bytes_suffice};
use crate::encode::lemma_next_special;
use crate::encode_bytes::{bytes_encoding, lemma_valid_up_to, valid_up_to, with_piece};
use crate::laws::{
    bytes_tiled, is_tiled, is_tiled_from, law_bpe_decodes, law_completions_extend, law_decode_add,
    law_decode_undoes_bytes, law_decode_undoes_encode, law_decode_undoes_ordinary,
    law_nothing_allowed_is_ordinary, law_ordinary_tokens_are_regular, law_piece_decodes,
    law_retokenised_is_cut, law_stable_tokens_first, law_whole_token_completes,
    lemma_text_between, no_empty_token, specials_decode, straddlings_tiled, tiles,
};
use crate::pattern::all_matches;
use crate::special_laws::{
    has_specials, law_none_allowed_is_ordinary, lemma_search_has_answer, lemma_some_bytes,
    ranks_apart, searches_specials, specials_not_empty,
};
use crate::text::{bytes_between, is_text_range, lemma_boundary_in_range, text_between};
use crate::unstable::{
    all_space, completions, completions_defined, cut, cut_before, ends_with_space, is_cut,
    is_space_token, is_straddling, is_whole, lemma_bpe_regular, lemma_last_bounded,
    lemma_retokenised_regular, lemma_unstable_count, over_space, retokenised, straddling,
    unstable_count, unstable_encoding,
};
use crate::vocab::{
    Encoding, SpecialSearch, Vocab, bytes_of_token, decoded, encoding, encoding_from,
    encoding_of_items, next_special, ordinary_encoding, piece_tokens, search_limit, vocab_wf,
};

verus! {

/// Every single byte is a token.
pub open spec fn has_single_bytes(v: Vocab) -> bool {
    forall|byte: u8| v.encoder.contains_key(#[trigger] seq![byte])
}

/// The search for pieces covers a text, and each of its ranges is one of whole characters.
pub open spec fn is_cut_up(v: Vocab, text: Seq<char>) -> bool {
    &&& is_tiled(v, text)
    &&& ranges_whole(text, all_matches(v.regex, text, search_limit(text)))
}

/// Each range that was found is one of whole characters.
pub open spec fn ranges_whole(
    text: Seq<char>,
    items: Seq<Result<(usize, usize), Seq<char>>>,
) -> bool {
    forall|i: int|
        0 <= i < items.len() ==> (#[trigger] items[i]) is Ok && is_text_range(
            text,
            items[i]->Ok_0.0 as int,
            items[i]->Ok_0.1 as int,
        )
}

/// A piece has tokens where every single byte is one.
proof fn lemma_piece_has_tokens(v: Vocab, piece: Seq<u8>)
    requires
        has_single_bytes(v),
        piece.len() > 0,
    ensures
        bpe_encodable(v.encoder, piece),
        piece_tokens(v.encoder, piece) is Some,
{
    assert forall|i: int| 0 <= i < piece.len() implies v.encoder.contains_key(
        seq![#[trigger] piece[i]],
    ) by {
        assert(v.encoder.contains_key(seq![piece[i]]));
    }
    law_single_bytes_suffice(v.encoder, piece);
}

/// There are no more ranges behind each other than bytes.
proof fn lemma_tiles_len(items: Seq<Result<(usize, usize), Seq<char>>>, end: int)
    requires
        tiles(items, end),
    ensures
        items.len() <= end,
    decreases items.len(),
{
    if items.len() > 0 {
        if let Ok((start, _)) = items.last() {
            lemma_tiles_len(items.drop_last(), start as int);
        }
    }
}

/// Pieces that cover the start of a text have tokens.
proof fn lemma_items_have_tokens(
    v: Vocab,
    text: Seq<char>,
    items: Seq<Result<(usize, usize), Seq<char>>>,
    end: int,
)
    requires
        has_single_bytes(v),
        tiles(items, end),
        ranges_whole(text, items),
    ensures
        encoding_of_items(v.encoder, text, items) is Tokens,
    decreases items.len(),
{
    if items.len() > 0 {
        let before = items.drop_last();
        assert(items[items.len() - 1] is Ok);
        if let Ok((start, last_end)) = items.last() {
            assert(ranges_whole(text, before)) by {
                assert forall|i: int| 0 <= i < before.len() implies (#[trigger] before[i]) is Ok
                    && is_text_range(
                    text,
                    before[i]->Ok_0.0 as int,
                    before[i]->Ok_0.1 as int,
                ) by {
                    assert(items[i] is Ok);
                }
            }
            lemma_items_have_tokens(v, text, before, start as int);
            lemma_text_between(text, start as int, last_end as int);
            lemma_piece_has_tokens(v, bytes_between(text, start as int, last_end as int));
        }
    }
}

/// A text has an encoding, where every single byte is a token and the pieces cover it.
pub proof fn law_ordinary_has_answer(v: Vocab, text: Seq<char>)
    requires
        has_single_bytes(v),
        is_cut_up(v, text),
        encode_utf8(text).len() + 3 <= usize::MAX,
    ensures
        ordinary_encoding(v, text) is Tokens,
{
    let items = all_matches(v.regex, text, search_limit(text));
    let len = encode_utf8(text).len() as int;
    lemma_tiles_len(items, len);
    lemma_items_have_tokens(v, text, items, len);
}

/// The searches for pieces cut up the stretches of a text between its special tokens, from
/// a position on.
pub open spec fn is_cut_up_from(
    v: Vocab,
    text: Seq<char>,
    allowed: Set<Seq<char>>,
    from: int,
) -> bool
    decreases encode_utf8(text).len() - from,
{
    let len = encode_utf8(text).len() as int;
    match next_special(v.special_regex, text, allowed, from) {
        SpecialSearch::Found(start, end) => {
            &&& is_cut_up(v, text_between(text, from, start as int))
            &&& from < end <= len ==> is_cut_up_from(v, text, allowed, end as int)
        },
        _ => is_cut_up(v, text_between(text, from, len)),
    }
}

/// A text has an encoding from the start of a character on.
proof fn lemma_encoding_from_has_answer(
    v: Vocab,
    text: Seq<char>,
    allowed: Set<Seq<char>>,
    from: int,
)
    requires
        has_single_bytes(v),
        searches_specials(v),
        specials_not_empty(v),
        has_specials(v) || !allowed.contains(Seq::empty()),
        encode_utf8(text).len() <= isize::MAX,
        is_char_boundary(encode_utf8(text), from),
        is_cut_up_from(v, text, allowed, from),
    ensures
        encoding_from(v, text, allowed, from) is Tokens,
    decreases encode_utf8(text).len() - from,
{
    let len = encode_utf8(text).len() as int;
    encode_utf8_valid_utf8(text);
    is_char_boundary_start_end_of_seq(encode_utf8(text));
    lemma_boundary_in_range(encode_utf8(text), from);
    lemma_next_special(v.special_regex, text, allowed, from);
    lemma_search_has_answer(v, text, allowed, from);
    if let SpecialSearch::Found(start, end) = next_special(
        v.special_regex,
        text,
        allowed,
        from,
    ) {
        lemma_text_between(text, from, start as int);
        law_ordinary_has_answer(v, text_between(text, from, start as int));
        lemma_encoding_from_has_answer(v, text, allowed, end as int);
    } else {
        lemma_text_between(text, from, len);
        law_ordinary_has_answer(v, text_between(text, from, len));
    }
}

/// A text has an encoding with allowed special tokens, where every single byte is a token,
/// no special token is empty and the pieces cover what stands between them.
pub proof fn law_encode_has_answer(v: Vocab, text: Seq<char>, allowed: Set<Seq<char>>)
    requires
        has_single_bytes(v),
        searches_specials(v),
        specials_not_empty(v),
        has_specials(v) || !allowed.contains(Seq::empty()),
        encode_utf8(text).len() <= isize::MAX,
        is_cut_up_from(v, text, allowed, 0),
    ensures
        encoding(v, text, allowed) is Tokens,
{
    encode_utf8_valid_utf8(text);
    is_char_boundary_start_end_of_seq(encode_utf8(text));
    lemma_encoding_from_has_answer(v, text, allowed, 0);
}

/// The pieces cover some bytes, as far as they are those of a text.
pub open spec fn bytes_cut_up(v: Vocab, bytes: Seq<u8>) -> bool {
    if valid_utf8(bytes) {
        is_cut_up(v, decode_utf8(bytes))
    } else {
        is_cut_up(v, decode_utf8(bytes.take(valid_up_to(bytes))))
    }
}

/// Tokens that decode do so part by part.
proof fn lemma_parts_decode(v: Vocab, tokens: Seq<Rank>, at: int)
    requires
        decoded(v, tokens) is Ok,
        0 <= at <= tokens.len(),
    ensures
        decoded(v, tokens.take(at)) is Ok,
        decoded(v, tokens.skip(at)) is Ok,
        decoded(v, tokens)->Ok_0 == decoded(v, tokens.take(at))->Ok_0 + decoded(
            v,
            tokens.skip(at),
        )->Ok_0,
{
    assert(tokens.take(at) + tokens.skip(at) =~= tokens);
    law_decode_add(v, tokens.take(at), tokens.skip(at));
}

/// Some bytes have an encoding, where every single byte is a token and the pieces cover
/// the text at their start. It decodes to them, whether or not they are those of a text.
pub proof fn law_bytes_have_answer(v: Vocab, bytes: Seq<u8>)
    requires
        vocab_wf(v),
        has_single_bytes(v),
        searches_specials(v),
        bytes_cut_up(v, bytes),
        bytes.len() <= isize::MAX,
    ensures
        bytes_encoding(v, bytes) is Some,
        decoded(v, bytes_encoding(v, bytes)->0) == Ok::<Seq<u8>, Rank>(bytes),
        valid_utf8(bytes) ==> ordinary_encoding(v, decode_utf8(bytes)) is Tokens
            && bytes_encoding(v, bytes)->0 == ordinary_encoding(v, decode_utf8(bytes))->Tokens_0,
{
    if valid_utf8(bytes) {
        decode_utf8_encode_utf8(bytes);
        law_ordinary_has_answer(v, decode_utf8(bytes));
    } else {
        lemma_valid_up_to(bytes);
        let len = valid_up_to(bytes);
        let text = decode_utf8(bytes.take(len));
        let rest = bytes.skip(len);
        decode_utf8_encode_utf8(bytes.take(len));
        law_none_allowed_is_ordinary(v, text, Set::empty());
        law_ordinary_has_answer(v, text);
        law_decode_undoes_ordinary(v, text);
        lemma_last_bounded(v, text, Set::empty(), 0);
        assert(bytes_between(text, 0, encode_utf8(text).len() as int) =~= encode_utf8(text));
        encode_utf8_decode_utf8(text);
        lemma_next_special(v.special_regex, text, Set::empty(), 0);
        assert(is_tiled_from(v, text, Set::empty(), 0));
        assert(bytes_tiled(v, bytes));
        if let Encoding::Tokens(tokens, last) = encoding(v, text, Set::empty()) {
            lemma_unstable_count(v, tokens, last);
            let stable = tokens.len() - unstable_count(v, tokens, last);
            lemma_parts_decode(v, tokens, stable);
            let unstable = decoded(v, tokens.skip(stable))->Ok_0;
            if unstable.len() + rest.len() > 0 {
                lemma_piece_has_tokens(v, unstable + rest);
            }
            if rest.len() > 0 {
                lemma_piece_has_tokens(v, rest);
            }
        }
    }
    law_decode_undoes_bytes(v, bytes);
}

/// The tokens of a piece are regular ones.
proof fn lemma_piece_regular(v: Vocab, piece: Seq<u8>)
    requires
        vocab_wf(v),
    ensures
        piece_tokens(v.encoder, piece) matches Some(tokens) ==> forall|i: int|
            0 <= i < tokens.len() ==> v.decoder.contains_key(#[trigger] tokens[i]),
{
    if !v.encoder.contains_key(piece) && bpe_encodable(v.encoder, piece) {
        lemma_bpe_regular(v, piece);
    }
}

/// The tokens of some bytes are regular ones: where no special token has the rank of a
/// regular one, none is among them.
pub proof fn law_bytes_tokens_are_regular(v: Vocab, bytes: Seq<u8>, i: int)
    requires
        vocab_wf(v),
        bytes_encoding(v, bytes) is Some,
        0 <= i < bytes_encoding(v, bytes)->0.len(),
    ensures
        v.decoder.contains_key(bytes_encoding(v, bytes)->0[i]),
        ranks_apart(v) ==> forall|special: Seq<char>| #[trigger]
            v.special_encoder.contains_key(special) ==> v.special_encoder[special]
                != bytes_encoding(v, bytes)->0[i],
{
    let all = bytes_encoding(v, bytes)->0;
    if valid_utf8(bytes) {
        law_ordinary_tokens_are_regular(v, decode_utf8(bytes));
    } else {
        let len = valid_up_to(bytes);
        let text = decode_utf8(bytes.take(len));
        law_nothing_allowed_is_ordinary(v, text);
        law_ordinary_tokens_are_regular(v, text);
        lemma_last_bounded(v, text, Set::empty(), 0);
        if let Encoding::Tokens(tokens, last) = encoding(v, text, Set::empty()) {
            lemma_unstable_count(v, tokens, last);
            let stable = tokens.len() - unstable_count(v, tokens, last);
            let rest = bytes.skip(len);
            let (front, piece) = if stable < tokens.len() {
                (tokens.take(stable), decoded(v, tokens.skip(stable))->Ok_0 + rest)
            } else {
                (tokens, rest)
            };
            lemma_piece_regular(v, piece);
            assert(all == with_piece(v, front, piece)->0);
            if i < front.len() {
                assert(all[i] == tokens[i]);
            } else {
                assert(all[i] == piece_tokens(v.encoder, piece)->0[i - front.len()]);
            }
        }
    }
}

/// Tokens without the last of them decode to fewer bytes.
proof fn lemma_without_last(v: Vocab, tokens: Seq<Rank>)
    requires
        decoded(v, tokens) is Ok,
        tokens.len() > 0,
    ensures
        decoded(v, tokens.drop_last()) is Ok,
        decoded(v, tokens.drop_last())->Ok_0.len() < decoded(v, tokens)->Ok_0.len(),
{
}

/// A regular token decodes to its bytes, where none is empty.
proof fn lemma_regular_bytes(v: Vocab, token: Rank)
    requires
        vocab_wf(v),
        no_empty_token(v),
        v.decoder.contains_key(token),
    ensures
        bytes_of_token(v, token) == Some(v.decoder[token]),
        v.decoder[token].len() > 0,
{
    assert(v.encoder.contains_key(v.decoder[token]));
    if v.decoder[token].len() == 0 {
        assert(v.decoder[token] =~= Seq::<u8>::empty());
    }
}

/// One token decodes to its bytes.
proof fn lemma_one_decodes(v: Vocab, token: Rank)
    ensures
        decoded(v, seq![token]) == (match bytes_of_token(v, token) {
            Some(bytes) => Ok::<Seq<u8>, Rank>(bytes),
            None => Err(token),
        }),
{
    assert(seq![token].drop_last() =~= Seq::<Rank>::empty());
    assert(decoded(v, seq![token].drop_last()) == Ok::<Seq<u8>, Rank>(Seq::empty()));
    if let Some(bytes) = bytes_of_token(v, token) {
        assert(Seq::<u8>::empty() + bytes =~= bytes);
    }
}

/// As many tokens as it takes to cover some bytes are no more than that: without the last
/// of them they do not cover them. Where all are needed, all are kept.
proof fn lemma_cut_is_short(v: Vocab, tokens: Seq<Rank>, len: int)
    requires
        vocab_wf(v),
        no_empty_token(v),
        decoded(v, tokens) is Ok,
        cut(v, tokens, len) is Some,
        len > 0,
        tokens.len() > 0,
    ensures
        ({
            let kept = cut(v, tokens, len)->0;
            &&& kept.len() > 0
            &&& decoded(v, kept.drop_last()) is Ok
            &&& decoded(v, kept.drop_last())->Ok_0.len() < len
            &&& decoded(v, tokens)->Ok_0.len() <= len ==> kept == tokens
        }),
    decreases tokens.len(),
{
    let first = seq![tokens[0]];
    let rest = tokens.skip(1);
    let own = v.decoder[tokens[0]].len();
    assert(tokens =~= first + rest);
    lemma_regular_bytes(v, tokens[0]);
    lemma_one_decodes(v, tokens[0]);
    law_decode_add(v, first, rest);
    let kept = cut(v, tokens, len)->0;
    if own >= len {
        assert(kept.drop_last() =~= Seq::<Rank>::empty());
        if decoded(v, tokens)->Ok_0.len() <= len && rest.len() > 0 {
            lemma_without_last(v, rest);
        }
        if rest.len() == 0 {
            assert(kept =~= tokens);
        }
    } else if rest.len() == 0 {
        assert(cut(v, rest, len - own)->0 =~= Seq::<Rank>::empty());
        assert(kept =~= tokens);
        assert(kept.drop_last() =~= Seq::<Rank>::empty());
    } else {
        lemma_cut_is_short(v, rest, len - own);
        let tail = cut(v, rest, len - own)->0;
        assert(kept.drop_last() =~= first + tail.drop_last());
        law_decode_add(v, first, tail.drop_last());
        if tail == rest {
            assert(kept =~= tokens);
        }
    }
}

/// What the tokens of unstable bytes and of a straddling token decode to.
proof fn lemma_retokenised_decodes(v: Vocab, bytes: Seq<u8>)
    requires
        vocab_wf(v),
        valid_utf8(bytes) ==> is_tiled(v, decode_utf8(bytes)),
        retokenised(v, bytes) is Some,
    ensures
        decoded(v, retokenised(v, bytes)->0) == Ok::<Seq<u8>, Rank>(bytes),
{
    if valid_utf8(bytes) {
        law_decode_undoes_ordinary(v, decode_utf8(bytes));
        decode_utf8_encode_utf8(bytes);
    } else {
        law_bpe_decodes(v, bytes);
    }
}

/// No completion has a superfluous token: without its last one, it does not cover the
/// unstable bytes.
pub proof fn law_no_superfluous_token(v: Vocab, unstable: Seq<u8>, tokens: Seq<Rank>)
    requires
        vocab_wf(v),
        no_empty_token(v),
        unstable.len() > 0,
        straddlings_tiled(v, unstable),
        completions(v, unstable).contains(tokens),
    ensures
        tokens.len() > 0,
        decoded(v, tokens.drop_last()) matches Ok(bytes) && bytes.len() < unstable.len(),
{
    if is_whole(v, unstable, tokens) {
        assert(tokens.drop_last() =~= Seq::<Rank>::empty());
    } else if is_cut(v, unstable, tokens) {
        let c = choose|c: char| #[trigger]
            ends_with_space(unstable, c) && cut_before(v, unstable, c) == Some(tokens);
        let at = unstable.len() - encode_utf8(seq![c]).len();
        let front = unstable.take(at);
        let back = unstable.skip(at);
        law_bpe_decodes(v, front);
        law_bpe_decodes(v, back);
        law_decode_add(v, bpe_encode(v.encoder, front), bpe_encode(v.encoder, back));
        assert(front + back =~= unstable);
        assert(tokens.len() > 0) by {
            if tokens.len() == 0 {
                assert(decoded(v, tokens) == Ok::<Seq<u8>, Rank>(Seq::empty()));
            }
        }
        lemma_without_last(v, tokens);
    } else {
        let at = choose|at: int|
            1 <= at < unstable.len() && #[trigger] is_straddling(v, unstable, at, tokens);
        let token = choose|token: Seq<u8>| #[trigger]
            v.encoder.contains_key(token) && unstable.skip(at).is_prefix_of(token) && straddling(
                v,
                unstable,
                at,
                token,
            ) == Some(tokens);
        let possibility = unstable.take(at) + token;
        assert(straddling(v, unstable, at, token) is Some);
        lemma_retokenised_decodes(v, possibility);
        let all = retokenised(v, possibility)->0;
        assert(all.len() > 0) by {
            if all.len() == 0 {
                assert(decoded(v, all) == Ok::<Seq<u8>, Rank>(Seq::empty()));
            }
        }
        lemma_cut_is_short(v, all, unstable.len() as int);
    }
}

/// The regular tokens of the unstable bytes are always among what they may come to: the
/// text may go on with something that leaves them as they are.
pub proof fn law_own_tokens_complete(v: Vocab, unstable: Seq<u8>)
    requires
        vocab_wf(v),
        has_single_bytes(v),
        no_empty_token(v),
        unstable.len() > 0,
        valid_utf8(unstable) ==> is_tiled(v, decode_utf8(unstable)),
        retokenised(v, unstable) is Some,
    ensures
        completions(v, unstable).contains(retokenised(v, unstable)->0),
{
    let tokens = retokenised(v, unstable)->0;
    let last = seq![unstable.last()];
    assert(v.encoder.contains_key(last));
    lemma_retokenised_decodes(v, unstable);
    assert(tokens.len() > 0) by {
        if tokens.len() == 0 {
            assert(decoded(v, tokens) == Ok::<Seq<u8>, Rank>(Seq::empty()));
        }
    }
    if unstable.len() == 1 {
        assert(unstable =~= last);
        law_whole_token_completes(v, unstable, last);
        lemma_retokenised_regular(v, unstable);
        lemma_one_byte(v, unstable, tokens);
    } else {
        let at = unstable.len() - 1;
        assert(unstable.take(at) + last =~= unstable);
        assert(unstable.skip(at) =~= last);
        assert(last =~= last.subrange(0, 1));
        law_retokenised_is_cut(v, unstable, unstable.len() as int);
        lemma_cut_is_short(v, tokens, unstable.len() as int);
        assert(straddling(v, unstable, at, last) == Some(tokens));
        assert(is_straddling(v, unstable, at, tokens));
    }
}

/// Regular tokens that decode to one byte are its own token.
proof fn lemma_one_byte(v: Vocab, byte: Seq<u8>, tokens: Seq<Rank>)
    requires
        vocab_wf(v),
        no_empty_token(v),
        byte.len() == 1,
        decoded(v, tokens) == Ok::<Seq<u8>, Rank>(byte),
        forall|i: int| 0 <= i < tokens.len() ==> v.decoder.contains_key(#[trigger] tokens[i]),
        tokens.len() > 0,
    ensures
        tokens == seq![v.encoder[byte]],
{
    let before = tokens.drop_last();
    lemma_without_last(v, tokens);
    if before.len() > 0 {
        lemma_without_last(v, before);
    }
    let token = tokens[0];
    assert(tokens =~= seq![token]);
    lemma_one_decodes(v, token);
    lemma_regular_bytes(v, token);
}

/// The bytes of the unstable tokens, where the last piece has `last` tokens.
pub open spec fn unstable_bytes(v: Vocab, tokens: Seq<Rank>, last: nat) -> Seq<u8> {
    decoded(v, tokens.skip(tokens.len() - unstable_count(v, tokens, last)))->Ok_0
}

/// The stable tokens of a text with a completion behind them decode to what starts with
/// the text, and without the last token of the completion to fewer bytes than the text
/// has. The stable tokens are the first ones of the text, and the completion is not empty.
pub proof fn law_completion_of_text(
    v: Vocab,
    text: Seq<char>,
    allowed: Set<Seq<char>>,
    completion: Seq<Rank>,
)
    requires
        vocab_wf(v),
        no_empty_token(v),
        specials_decode(v, allowed),
        is_tiled_from(v, text, allowed, 0),
        encoding(v, text, allowed) matches Encoding::Tokens(tokens, last) && straddlings_tiled(
            v,
            unstable_bytes(v, tokens, last),
        ),
        unstable_encoding(v, text, allowed) matches Some((_, found)) && found.contains(
            completion,
        ),
    ensures
        ({
            let (stable, _) = unstable_encoding(v, text, allowed)->0;
            &&& stable.is_prefix_of(encoding(v, text, allowed)->Tokens_0)
            &&& completion.len() > 0
            &&& decoded(v, stable + completion) matches Ok(bytes) && encode_utf8(
                text,
            ).is_prefix_of(bytes)
            &&& decoded(v, (stable + completion).drop_last()) matches Ok(bytes) && bytes.len()
                < encode_utf8(text).len()
        }),
{
    law_decode_undoes_encode(v, text, allowed);
    lemma_last_bounded(v, text, allowed, 0);
    let bytes = encode_utf8(text);
    if let Encoding::Tokens(tokens, last) = encoding(v, text, allowed) {
        law_stable_tokens_first(v, tokens, last);
        lemma_unstable_count(v, tokens, last);
        let at = tokens.len() - unstable_count(v, tokens, last);
        lemma_parts_decode(v, tokens, at);
        let stable = tokens.take(at);
        let front = decoded(v, stable)->Ok_0;
        let unstable = decoded(v, tokens.skip(at))->Ok_0;
        law_completions_extend(v, unstable, completion);
        law_no_superfluous_token(v, unstable, completion);
        law_decode_add(v, stable, completion);
        law_decode_add(v, stable, completion.drop_last());
        assert((stable + completion).drop_last() =~= stable + completion.drop_last());
        let more = decoded(v, completion)->Ok_0;
        assert(bytes =~= (front + more).subrange(0, bytes.len() as int)) by {
            assert(unstable =~= more.subrange(0, unstable.len() as int));
        }
    }
}

/// Spaces, line feeds and tabs are the bytes of a text.
proof fn lemma_space_is_text(bytes: Seq<u8>)
    requires
        all_space(bytes),
    ensures
        valid_utf8(bytes),
{
    assert forall|i: int| 0 <= i < bytes.len() implies #[trigger] is_leading_byte_width_1(
        bytes[i],
    ) by {}
    assert(bytes.subrange(0, 0) =~= Seq::<u8>::empty());
    partial_valid_utf8_extend_ascii_block(bytes, 0, bytes.len() as int);
    assert(bytes.subrange(0, bytes.len() as int) =~= bytes);
}

/// The bytes of the last tokens stay those of a text when space before them is taken in.
proof fn lemma_over_space_is_text(v: Vocab, tokens: Seq<Rank>, count: nat)
    requires
        vocab_wf(v),
        no_empty_token(v),
        decoded(v, tokens) is Ok,
        count <= tokens.len(),
        decoded(v, tokens.skip(tokens.len() - count)) matches Ok(bytes) && valid_utf8(bytes),
    ensures
        over_space(v, tokens, count) <= tokens.len(),
        decoded(v, tokens.skip(tokens.len() - over_space(v, tokens, count))) matches Ok(bytes)
            && valid_utf8(bytes),
    decreases tokens.len() - count,
{
    if count < tokens.len() && is_space_token(v, tokens[tokens.len() - count - 1]) {
        let at = tokens.len() - count - 1;
        let token = tokens[at];
        lemma_regular_bytes(v, token);
        lemma_one_decodes(v, token);
        lemma_space_is_text(v.decoder[token]);
        assert(tokens.skip(at) =~= seq![token] + tokens.skip(at + 1));
        law_decode_add(v, seq![token], tokens.skip(at + 1));
        valid_utf8_concat(v.decoder[token], decoded(v, tokens.skip(at + 1))->Ok_0);
        lemma_over_space_is_text(v, tokens, count + 1);
    }
}

/// The last tokens of the pieces of a text are those of its last piece, and decode to it.
proof fn lemma_last_piece_of_items(
    v: Vocab,
    text: Seq<char>,
    items: Seq<Result<(usize, usize), Seq<char>>>,
    end: int,
)
    requires
        vocab_wf(v),
        tiles(items, end),
        encoding_of_items(v.encoder, text, items) is Tokens,
        items.len() > 0,
    ensures
        encoding_of_items(v.encoder, text, items) matches Encoding::Tokens(tokens, last) && {
            &&& last <= tokens.len()
            &&& decoded(v, tokens.skip(tokens.len() - last)) matches Ok(bytes) && valid_utf8(bytes)
        },
{
    if let Ok((start, last_end)) = items.last() {
        let before = encoding_of_items(v.encoder, text, items.drop_last())->Tokens_0;
        let piece = bytes_between(text, start as int, last_end as int);
        let more = piece_tokens(v.encoder, piece)->0;
        lemma_text_between(text, start as int, last_end as int);
        encode_utf8_valid_utf8(text_between(text, start as int, last_end as int));
        law_piece_decodes(v, piece);
        assert((before + more).skip(before.len() as int) =~= more);
    }
}

/// The last tokens of a text that does not end with a special token are those of its last
/// piece, and decode to the bytes of a text.
proof fn lemma_last_piece(v: Vocab, text: Seq<char>, allowed: Set<Seq<char>>, from: int)
    requires
        vocab_wf(v),
        is_char_boundary(encode_utf8(text), from),
        is_tiled_from(v, text, allowed, from),
        encoding_from(v, text, allowed, from) matches Encoding::Tokens(_, last) && last > 0,
    ensures
        encoding_from(v, text, allowed, from) matches Encoding::Tokens(tokens, last) && {
            &&& last <= tokens.len()
            &&& decoded(v, tokens.skip(tokens.len() - last)) matches Ok(bytes) && valid_utf8(bytes)
        },
    decreases encode_utf8(text).len() - from,
{
    let len = encode_utf8(text).len() as int;
    encode_utf8_valid_utf8(text);
    lemma_next_special(v.special_regex, text, allowed, from);
    match next_special(v.special_regex, text, allowed, from) {
        SpecialSearch::Found(start, end) => {
            lemma_last_piece(v, text, allowed, end as int);
            lemma_last_bounded(v, text, allowed, end as int);
            let all = encoding_from(v, text, allowed, from)->Tokens_0;
            if let Encoding::Tokens(rest, last) = encoding_from(v, text, allowed, end as int) {
                assert(all.skip(all.len() - last) =~= rest.skip(rest.len() - last));
            }
        },
        _ => {
            let part = text_between(text, from, len);
            let items = all_matches(v.regex, part, search_limit(part));
            lemma_last_piece_of_items(v, part, items, encode_utf8(part).len() as int);
        },
    }
}

/// A text that does not end with a special token has unstable bytes at its end. They are
/// those of a text, and come behind what the stable tokens decode to.
pub proof fn law_unstable_bytes(v: Vocab, text: Seq<char>, allowed: Set<Seq<char>>)
    requires
        vocab_wf(v),
        no_empty_token(v),
        specials_decode(v, allowed),
        is_tiled_from(v, text, allowed, 0),
        encoding(v, text, allowed) matches Encoding::Tokens(_, last) && last > 0,
    ensures
        encoding(v, text, allowed) matches Encoding::Tokens(tokens, last) && {
            let unstable = unstable_bytes(v, tokens, last);
            let stable = tokens.take(tokens.len() - unstable_count(v, tokens, last));
            &&& unstable.len() > 0
            &&& valid_utf8(unstable)
            &&& decoded(v, stable) matches Ok(front) && front + unstable == encode_utf8(text)
        },
{
    encode_utf8_valid_utf8(text);
    is_char_boundary_start_end_of_seq(encode_utf8(text));
    law_decode_undoes_encode(v, text, allowed);
    lemma_last_bounded(v, text, allowed, 0);
    lemma_last_piece(v, text, allowed, 0);
    if let Encoding::Tokens(tokens, last) = encoding(v, text, allowed) {
        lemma_unstable_count(v, tokens, last);
        lemma_over_space_is_text(v, tokens, last);
        let at = tokens.len() - unstable_count(v, tokens, last);
        lemma_parts_decode(v, tokens, at);
        lemma_without_last(v, tokens.skip(at));
    }
}

/// A text that does not end with a special token has a completion: the regular tokens of
/// its unstable bytes, which they have where every single byte is a token and the pieces
/// cover them.
pub proof fn law_text_has_completion(v: Vocab, text: Seq<char>, allowed: Set<Seq<char>>)
    requires
        vocab_wf(v),
        has_single_bytes(v),
        no_empty_token(v),
        specials_decode(v, allowed),
        is_tiled_from(v, text, allowed, 0),
        encode_utf8(text).len() + 3 <= usize::MAX,
        encoding(v, text, allowed) matches Encoding::Tokens(tokens, last) && last > 0
            && is_cut_up(v, decode_utf8(unstable_bytes(v, tokens, last))),
        unstable_encoding(v, text, allowed) is Some,
    ensures
        encoding(v, text, allowed) matches Encoding::Tokens(tokens, last) && {
            let unstable = unstable_bytes(v, tokens, last);
            let (stable, found) = unstable_encoding(v, text, allowed)->0;
            &&& unstable.len() > 0
            &&& valid_utf8(unstable)
            &&& decoded(v, stable) matches Ok(front) && front + unstable == encode_utf8(text)
            &&& ordinary_encoding(v, decode_utf8(unstable)) matches Encoding::Tokens(own, _)
                && found.contains(own)
        },
{
    law_unstable_bytes(v, text, allowed);
    if let Encoding::Tokens(tokens, last) = encoding(v, text, allowed) {
        let unstable = unstable_bytes(v, tokens, last);
        decode_utf8_encode_utf8(unstable);
        law_ordinary_has_answer(v, decode_utf8(unstable));
        law_own_tokens_complete(v, unstable);
    }
}

/// The search for pieces covers every text that unstable bytes and a token that straddles
/// their end make up, with ranges of whole characters.
pub open spec fn straddlings_cut_up(v: Vocab, unstable: Seq<u8>) -> bool {
    forall|at: int, token: Seq<u8>|
        #![trigger straddling(v, unstable, at, token)]
        1 <= at < unstable.len() && v.encoder.contains_key(token) && unstable.skip(
            at,
        ).is_prefix_of(token) && valid_utf8(unstable.take(at) + token) ==> is_cut_up(
            v,
            decode_utf8(unstable.take(at) + token),
        ) && at + token.len() + 3 <= usize::MAX
}

/// Every way to complete unstable bytes has an answer, where every single byte is a token
/// and the pieces cover what they may come to.
pub proof fn law_completions_have_answer(v: Vocab, unstable: Seq<u8>)
    requires
        vocab_wf(v),
        has_single_bytes(v),
        straddlings_cut_up(v, unstable),
    ensures
        completions_defined(v, unstable),
{
    assert forall|at: int, token: Seq<u8>|
        #![trigger straddling(v, unstable, at, token)]
        1 <= at < unstable.len() && v.encoder.contains_key(token) && unstable.skip(
            at,
        ).is_prefix_of(token) implies straddling(v, unstable, at, token) is Some by {
        let possibility = unstable.take(at) + token;
        if valid_utf8(possibility) {
            decode_utf8_encode_utf8(possibility);
            law_ordinary_has_answer(v, decode_utf8(possibility));
        } else {
            lemma_piece_has_tokens(v, possibility);
        }
        law_retokenised_is_cut(v, possibility, unstable.len() as int);
    }
    assert forall|c: char| #[trigger] ends_with_space(unstable, c) implies cut_before(
        v,
        unstable,
        c,
    ) is Some by {
        let at = unstable.len() - encode_utf8(seq![c]).len();
        lemma_some_bytes(seq![c]);
        lemma_piece_has_tokens(v, unstable.take(at));
        lemma_piece_has_tokens(v, unstable.skip(at));
    }
}

/// Encoding a text that may go on has an answer where encoding the text has one, every
/// single byte is a token and the pieces cover what the unstable bytes may come to.
pub proof fn law_unstable_has_answer(v: Vocab, text: Seq<char>, allowed: Set<Seq<char>>)
    requires
        vocab_wf(v),
        has_single_bytes(v),
        specials_decode(v, allowed),
        is_tiled_from(v, text, allowed, 0),
        encoding(v, text, allowed) matches Encoding::Tokens(tokens, last) && straddlings_cut_up(
            v,
            unstable_bytes(v, tokens, last),
        ),
    ensures
        unstable_encoding(v, text, allowed) is Some,
{
    law_decode_undoes_encode(v, text, allowed);
    lemma_last_bounded(v, text, allowed, 0);
    if let Encoding::Tokens(tokens, last) = encoding(v, text, allowed) {
        lemma_unstable_count(v, tokens, last);
        lemma_parts_decode(v, tokens, tokens.len() - unstable_count(v, tokens, last));
        law_completions_have_answer(v, unstable_bytes(v, tokens, last));
    }
}

} // verus!
