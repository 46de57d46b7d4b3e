//! What the tokens of a text are, said by the pieces and special tokens in it.
use fancy_regex::Regex;
use vstd::prelude::*;
use vstd::utf8::*;

use crate::bpe::Rank;
use crate::bpe::{bpe_encodable, bpe_encode};
use crate::encode_bytes::rank_of_token;
use crate::pattern::{all_matches, first_match};
use crate::text::lemma_boundary_in_range;
use crate::vocab::{
    Encoding, SpecialSearch, Vocab, bytes_of_token, char_start_from, decoded, encoding,
    encoding_from, encoding_of_items, judge_special, lemma_char_start_from, listed_bytes,
    next_special, ordinary_encoding, piece_tokens, segment_encoding, stretch_encoding,
};

verus! {

/// A token decodes to the bytes of the regular token of that rank, else to those of the
/// special token; one that has neither, or no bytes, is an error. No tokens decode to no
/// bytes.
pub proof fn law_one_token_decodes(v: Vocab, token: Rank)
    ensures
        decoded(v, Seq::empty()) == Ok::<Seq<u8>, Rank>(Seq::empty()),
        v.decoder.contains_key(token) && v.decoder[token].len() > 0 ==> decoded(v, seq![token])
            == Ok::<Seq<u8>, Rank>(v.decoder[token]),
        !(v.decoder.contains_key(token) && v.decoder[token].len() > 0)
            && v.special_decoder.contains_key(token) && v.special_decoder[token].len() > 0
            ==> decoded(v, seq![token]) == Ok::<Seq<u8>, Rank>(v.special_decoder[token]),
        !(v.decoder.contains_key(token) && v.decoder[token].len() > 0) && !(
        v.special_decoder.contains_key(token) && v.special_decoder[token].len() > 0) ==> decoded(
            v,
            seq![token],
        ) == Err::<Seq<u8>, Rank>(token),
{
    let none = Seq::<Rank>::empty();
    assert(seq![token].drop_last() =~= none);
    assert(decoded(v, none) == Ok::<Seq<u8>, Rank>(Seq::empty()));
    if let Some(bytes) = bytes_of_token(v, token) {
        assert(Seq::<u8>::empty() + bytes =~= bytes);
    }
}

/// The bytes of a single token are found as they are decoded: also where there are none.
pub proof fn law_one_token_is_listed(v: Vocab, token: Rank)
    ensures
        v.decoder.contains_key(token) ==> listed_bytes(v, token) == Some(v.decoder[token]),
        !v.decoder.contains_key(token) && v.special_decoder.contains_key(token) ==> listed_bytes(
            v,
            token,
        ) == Some(v.special_decoder[token]),
        !v.decoder.contains_key(token) && !v.special_decoder.contains_key(token) ==> listed_bytes(
            v,
            token,
        ) is None,
        v.decoder.contains_key(token) && v.decoder[token].len() > 0 ==> bytes_of_token(v, token)
            == Some(v.decoder[token]),
        !(v.decoder.contains_key(token) && v.decoder[token].len() > 0)
            && v.special_decoder.contains_key(token) && v.special_decoder[token].len() > 0
            ==> bytes_of_token(v, token) == Some(v.special_decoder[token]),
        bytes_of_token(v, token) is None <==> decoded(v, seq![token]) is Err,
{
    law_one_token_decodes(v, token);
}

/// The rank of a byte string is that of the regular token, else that of the special token
/// with these bytes.
pub proof fn law_token_has_rank(v: Vocab, bytes: Seq<u8>)
    ensures
        v.encoder.contains_key(bytes) ==> rank_of_token(v, bytes) == Some(v.encoder[bytes]),
        !v.encoder.contains_key(bytes) ==> forall|text: Seq<char>|
            #![trigger encode_utf8(text)]
            encode_utf8(text) == bytes ==> (if v.special_encoder.contains_key(text) {
                rank_of_token(v, bytes) == Some(v.special_encoder[text])
            } else {
                rank_of_token(v, bytes) is None
            }),
        !v.encoder.contains_key(bytes) && !valid_utf8(bytes) ==> rank_of_token(v, bytes) is None,
{
    assert forall|text: Seq<char>|
        #![trigger encode_utf8(text)]
        !v.encoder.contains_key(bytes) && encode_utf8(text) == bytes implies (
    if v.special_encoder.contains_key(text) {
        rank_of_token(v, bytes) == Some(v.special_encoder[text])
    } else {
        rank_of_token(v, bytes) is None
    }) by {
        encode_utf8_valid_utf8(text);
        encode_utf8_decode_utf8(text);
    }
}

/// A piece that is a token is that token, however long it is; else byte pair encoding gives
/// its tokens, where there are any.
pub proof fn law_piece_is_token(encoder: Map<Seq<u8>, Rank>, piece: Seq<u8>)
    ensures
        encoder.contains_key(piece) ==> piece_tokens(encoder, piece) == Some(seq![encoder[piece]]),
        !encoder.contains_key(piece) && bpe_encodable(encoder, piece) ==> piece_tokens(
            encoder,
            piece,
        ) == Some(bpe_encode(encoder, piece)),
        !encoder.contains_key(piece) && !bpe_encodable(encoder, piece) ==> piece_tokens(
            encoder,
            piece,
        ) is None,
{
}

/// The item is the range of a piece of whole characters, and the tokens are those of the
/// piece: the one that it is, or those of byte pair encoding.
pub open spec fn are_tokens_of_piece(
    encoder: Map<Seq<u8>, Rank>,
    text: Seq<char>,
    item: Result<(usize, usize), Seq<char>>,
    tokens: Seq<Rank>,
) -> bool {
    item matches Ok((start, end)) && start <= end && is_char_boundary(
        encode_utf8(text),
        start as int,
    ) && is_char_boundary(encode_utf8(text), end as int) && {
        let piece = encode_utf8(text).subrange(start as int, end as int);
        if encoder.contains_key(piece) {
            tokens.len() == 1 && tokens[0] == encoder[piece]
        } else {
            bpe_encodable(encoder, piece) && tokens == bpe_encode(encoder, piece)
        }
    }
}

/// The lists are the tokens of the pieces, one list for each.
pub open spec fn are_tokens_of_pieces(
    encoder: Map<Seq<u8>, Rank>,
    text: Seq<char>,
    items: Seq<Result<(usize, usize), Seq<char>>>,
    lists: Seq<Seq<Rank>>,
) -> bool {
    &&& lists.len() == items.len()
    &&& forall|i: int|
        #![trigger items[i]]
        #![trigger lists[i]]
        0 <= i < items.len() ==> are_tokens_of_piece(encoder, text, items[i], lists[i])
}

/// The number of tokens in the last list.
pub open spec fn last_len(lists: Seq<Seq<Rank>>) -> nat {
    if lists.len() == 0 {
        0
    } else {
        lists.last().len()
    }
}

/// The tokens of pieces are those of each piece, behind each other.
proof fn lemma_items_of_lists(
    encoder: Map<Seq<u8>, Rank>,
    text: Seq<char>,
    items: Seq<Result<(usize, usize), Seq<char>>>,
    lists: Seq<Seq<Rank>>,
)
    requires
        are_tokens_of_pieces(encoder, text, items, lists),
    ensures
        encoding_of_items(encoder, text, items) == Encoding::Tokens(
            lists.flatten(),
            last_len(lists),
        ),
    decreases items.len(),
{
    if items.len() == 0 {
        assert(lists.flatten() =~= Seq::<Rank>::empty());
    } else {
        let before = items.drop_last();
        let front = lists.drop_last();
        assert forall|i: int|
            #![trigger before[i]]
            #![trigger front[i]]
            0 <= i < before.len() implies are_tokens_of_piece(
            encoder,
            text,
            before[i],
            front[i],
        ) by {
            assert(before[i] == items[i]);
            assert(front[i] == lists[i]);
        }
        lemma_items_of_lists(encoder, text, before, front);
        let last = items.len() - 1;
        assert(are_tokens_of_piece(encoder, text, items[last], lists[last]));
        if let Ok((start, end)) = items.last() {
            let piece = encode_utf8(text).subrange(start as int, end as int);
            if encoder.contains_key(piece) {
                assert(lists.last() =~= seq![encoder[piece]]);
            }
            assert(piece_tokens(encoder, piece) == Some(lists.last()));
        }
        assert(lists =~= front.push(lists.last()));
        front.lemma_flatten_push(lists.last());
    }
}

/// Where pieces have tokens, each of them has.
proof fn lemma_lists_of_items(
    encoder: Map<Seq<u8>, Rank>,
    text: Seq<char>,
    items: Seq<Result<(usize, usize), Seq<char>>>,
) -> (lists: Seq<Seq<Rank>>)
    requires
        encoding_of_items(encoder, text, items) is Tokens,
    ensures
        are_tokens_of_pieces(encoder, text, items, lists),
    decreases items.len(),
{
    if items.len() == 0 {
        Seq::empty()
    } else {
        let front = lemma_lists_of_items(encoder, text, items.drop_last());
        let (start, end) = items.last()->Ok_0;
        let piece = encode_utf8(text).subrange(start as int, end as int);
        let lists = front.push(piece_tokens(encoder, piece)->0);
        assert forall|i: int|
            #![trigger items[i]]
            #![trigger lists[i]]
            0 <= i < items.len() implies are_tokens_of_piece(
            encoder,
            text,
            items[i],
            lists[i],
        ) by {
            if i < items.len() - 1 {
                assert(items[i] == items.drop_last()[i]);
                assert(lists[i] == front[i]);
            }
        }
        lists
    }
}

/// The first item that is an error ends the search, with what it says.
proof fn lemma_items_fail(
    encoder: Map<Seq<u8>, Rank>,
    text: Seq<char>,
    items: Seq<Result<(usize, usize), Seq<char>>>,
    k: int,
)
    requires
        0 <= k < items.len(),
        items[k] is Err,
        encoding_of_items(encoder, text, items.take(k)) is Tokens,
    ensures
        encoding_of_items(encoder, text, items) == Encoding::Fails(
            "Regex error while tokenizing: "@ + items[k]->Err_0,
        ),
    decreases items.len(),
{
    if k < items.len() - 1 {
        assert(items.drop_last().take(k) =~= items.take(k));
        lemma_items_fail(encoder, text, items.drop_last(), k);
    } else {
        assert(items.drop_last() =~= items.take(k));
    }
}

/// Found pieces have tokens exactly where each of them has: those of all pieces behind each
/// other, with the number of those of the last.
pub proof fn law_items_have_tokens(
    encoder: Map<Seq<u8>, Rank>,
    text: Seq<char>,
    items: Seq<Result<(usize, usize), Seq<char>>>,
)
    ensures
        forall|lists: Seq<Seq<Rank>>| #[trigger]
            are_tokens_of_pieces(encoder, text, items, lists) ==> encoding_of_items(
                encoder,
                text,
                items,
            ) == Encoding::Tokens(lists.flatten(), last_len(lists)),
        encoding_of_items(encoder, text, items) is Tokens ==> exists|lists: Seq<Seq<Rank>>|
            #[trigger]
            are_tokens_of_pieces(encoder, text, items, lists),
{
    assert forall|lists: Seq<Seq<Rank>>| #[trigger]
        are_tokens_of_pieces(encoder, text, items, lists) implies encoding_of_items(
        encoder,
        text,
        items,
    ) == Encoding::Tokens(lists.flatten(), last_len(lists)) by {
        lemma_items_of_lists(encoder, text, items, lists);
    }
    if encoding_of_items(encoder, text, items) is Tokens {
        let lists = lemma_lists_of_items(encoder, text, items);
        assert(are_tokens_of_pieces(encoder, text, items, lists));
    }
}

/// What a search for pieces gives that is cut behind one match for each byte, one at the
/// end and an error.
pub open spec fn pieces_of(v: Vocab, text: Seq<char>) -> Seq<Result<(usize, usize), Seq<char>>> {
    let len = encode_utf8(text).len();
    all_matches(
        v.regex,
        text,
        if len + 3 <= usize::MAX {
            len + 3
        } else {
            usize::MAX as nat
        },
    )
}

/// A search for pieces comes to an end.
pub open spec fn search_ends(v: Vocab, text: Seq<char>) -> bool {
    pieces_of(v, text).len() < encode_utf8(text).len() + 3 && pieces_of(v, text).len() < usize::MAX
}

/// A text has the tokens of its pieces, behind each other, with the number of those of the
/// last piece.
pub proof fn law_ordinary_is_pieces(v: Vocab, text: Seq<char>, lists: Seq<Seq<Rank>>)
    requires
        search_ends(v, text),
        are_tokens_of_pieces(v.encoder, text, pieces_of(v, text), lists),
    ensures
        ordinary_encoding(v, text) == Encoding::Tokens(lists.flatten(), last_len(lists)),
{
    lemma_items_of_lists(v.encoder, text, pieces_of(v, text), lists);
}

/// A text has no other tokens than those of its pieces.
pub proof fn law_ordinary_has_pieces(v: Vocab, text: Seq<char>) -> (lists: Seq<Seq<Rank>>)
    requires
        ordinary_encoding(v, text) is Tokens,
    ensures
        search_ends(v, text),
        are_tokens_of_pieces(v.encoder, text, pieces_of(v, text), lists),
        ordinary_encoding(v, text) == Encoding::Tokens(lists.flatten(), last_len(lists)),
{
    let lists = lemma_lists_of_items(v.encoder, text, pieces_of(v, text));
    lemma_items_of_lists(v.encoder, text, pieces_of(v, text), lists);
    lists
}

/// A search that fails behind pieces with tokens is an error that says why.
pub proof fn law_ordinary_fails(v: Vocab, text: Seq<char>, k: int, lists: Seq<Seq<Rank>>)
    requires
        search_ends(v, text),
        0 <= k < pieces_of(v, text).len(),
        pieces_of(v, text)[k] is Err,
        are_tokens_of_pieces(v.encoder, text, pieces_of(v, text).take(k), lists),
    ensures
        ordinary_encoding(v, text) == Encoding::Fails(
            "Regex error while tokenizing: "@ + pieces_of(v, text)[k]->Err_0,
        ),
{
    lemma_items_of_lists(v.encoder, text, pieces_of(v, text).take(k), lists);
    lemma_items_fail(v.encoder, text, pieces_of(v, text), k);
}

/// A search that goes on from a match: the match stands at or behind `from`, is of whole
/// characters, and not allowed, and the next character starts at `next`.
pub open spec fn goes_on_from(
    regex: Regex,
    text: Seq<char>,
    allowed: Set<Seq<char>>,
    from: int,
    next: int,
) -> bool {
    let bytes = encode_utf8(text);
    first_match(regex, text, from as nat) matches Ok(Some((start, end))) && from <= start <= end
        && is_char_boundary(bytes, start as int) && is_char_boundary(bytes, end as int)
        && !allowed.contains(decode_utf8(bytes.subrange(start as int, end as int))) && start < next
        && is_char_boundary(bytes, next) && forall|i: int|
        start < i < next ==> !#[trigger] is_char_boundary(bytes, i)
}

/// The search for an allowed special token ends with the first match that is allowed, goes
/// on from the next character behind the start of one that is not, and ends where there is
/// no match or no character left.
pub proof fn law_search_for_special(
    regex: Regex,
    text: Seq<char>,
    allowed: Set<Seq<char>>,
    from: int,
)
    requires
        is_char_boundary(encode_utf8(text), from),
    ensures
        first_match(regex, text, from as nat) matches Ok(Some((start, end))) ==> {
            let bytes = encode_utf8(text);
            from <= start <= end && is_char_boundary(bytes, start as int) && is_char_boundary(
                bytes,
                end as int,
            ) ==> {
                &&& allowed.contains(decode_utf8(bytes.subrange(start as int, end as int)))
                    ==> next_special(regex, text, allowed, from) == SpecialSearch::Found(start, end)
                &&& !allowed.contains(decode_utf8(bytes.subrange(start as int, end as int)))
                    && start == bytes.len() ==> next_special(regex, text, allowed, from) is Absent
            }
        },
        first_match(regex, text, from as nat) == Ok::<Option<(usize, usize)>, Seq<char>>(None)
            ==> next_special(regex, text, allowed, from) is Absent,
        first_match(regex, text, from as nat) is Err ==> next_special(regex, text, allowed, from)
            is Undefined,
        forall|next: int| #[trigger]
            goes_on_from(regex, text, allowed, from, next) && encode_utf8(text).len() <= usize::MAX
                ==> next_special(regex, text, allowed, from) == next_special(
                regex,
                text,
                allowed,
                next,
            ),
{
    let bytes = encode_utf8(text);
    encode_utf8_valid_utf8(text);
    lemma_boundary_in_range(bytes, from);
    if let Ok(Some((start, end))) = first_match(regex, text, from as nat) {
        lemma_char_start_from(bytes, start + 1);
        if is_char_boundary(bytes, start as int) {
            lemma_boundary_in_range(bytes, start as int);
        }
        assert forall|next: int| #[trigger]
            goes_on_from(regex, text, allowed, from, next) && bytes.len()
                <= usize::MAX implies next_special(regex, text, allowed, from) == next_special(
            regex,
            text,
            allowed,
            next,
        ) by {
            lemma_boundary_in_range(bytes, next);
            let again = char_start_from(bytes, start + 1);
            assert(again == next) by {
                if again < next {
                    assert(is_char_boundary(bytes, again));
                }
            }
        }
    }
}

/// What a match comes to in the search for an allowed special token: one of whole
/// characters at or behind `from` ends it where it is allowed; else the search goes on from
/// the next character behind its start, if there is one.
pub proof fn law_match_is_judged(
    text: Seq<char>,
    allowed: Set<Seq<char>>,
    from: int,
    start: usize,
    end: usize,
)
    requires
        from <= start <= end,
        is_char_boundary(encode_utf8(text), start as int),
        is_char_boundary(encode_utf8(text), end as int),
        encode_utf8(text).len() <= usize::MAX,
    ensures
        ({
            let bytes = encode_utf8(text);
            let found = judge_special(text, allowed, from, Ok(Some((start, end))));
            &&& allowed.contains(decode_utf8(bytes.subrange(start as int, end as int))) ==> found
                == SpecialSearch::Found(start, end)
            &&& !allowed.contains(decode_utf8(bytes.subrange(start as int, end as int))) && start
                == bytes.len() ==> found is Absent
            &&& !allowed.contains(decode_utf8(bytes.subrange(start as int, end as int))) && start
                < bytes.len() ==> (found matches SpecialSearch::Again(next) && start < next
                && is_char_boundary(bytes, next as int) && forall|i: int|
                start < i < next ==> !#[trigger] is_char_boundary(bytes, i))
        }),
        judge_special(text, allowed, from, Ok(None)) is Absent,
        forall|message: Seq<char>| #[trigger]
            judge_special(text, allowed, from, Err(message)) is Undefined,
{
    let bytes = encode_utf8(text);
    encode_utf8_valid_utf8(text);
    lemma_boundary_in_range(bytes, start as int);
    lemma_char_start_from(bytes, start + 1);
}

/// A stretch of text before a special token has the tokens of the text and the rank of the
/// special token behind them; none of them counts as one of the last piece.
pub proof fn law_stretch_before_special(v: Vocab, text: Seq<char>, special: Seq<char>)
    ensures
        ordinary_encoding(v, text) matches Encoding::Tokens(tokens, _) ==> (
        if v.special_encoder.contains_key(special) {
            stretch_encoding(v, text, Some(special)) == Encoding::Tokens(
                tokens + seq![v.special_encoder[special]],
                0,
            )
        } else {
            stretch_encoding(v, text, Some(special)) is Undefined
        }),
        !(ordinary_encoding(v, text) is Tokens) ==> stretch_encoding(v, text, Some(special))
            == ordinary_encoding(v, text),
{
    if let Encoding::Tokens(tokens, _) = ordinary_encoding(v, text) {
        assert(tokens.push(v.special_encoder[special]) =~= tokens + seq![
            v.special_encoder[special],
        ]);
    }
}

/// Found pieces and the special token behind them have the tokens of the pieces, and its
/// rank behind them.
pub proof fn law_segment_of_items(
    v: Vocab,
    text: Seq<char>,
    items: Seq<Result<(usize, usize), Seq<char>>>,
    special: Option<Seq<char>>,
)
    ensures
        special is None ==> segment_encoding(v, text, items, special) == encoding_of_items(
            v.encoder,
            text,
            items,
        ),
        special matches Some(special) ==> (match encoding_of_items(v.encoder, text, items) {
            Encoding::Tokens(tokens, _) => if v.special_encoder.contains_key(special) {
                segment_encoding(v, text, items, Some(special)) == Encoding::Tokens(
                    tokens + seq![v.special_encoder[special]],
                    0,
                )
            } else {
                segment_encoding(v, text, items, Some(special)) is Undefined
            },
            other => segment_encoding(v, text, items, Some(special)) == other,
        }),
{
    if let (Encoding::Tokens(tokens, _), Some(special)) = (
        encoding_of_items(v.encoder, text, items),
        special,
    ) {
        assert(tokens.push(v.special_encoder[special]) =~= tokens + seq![
            v.special_encoder[special],
        ]);
    }
}

/// A text in which an allowed special token is found has the tokens of what stands before
/// it, its rank, and the tokens of what stands behind it; of the last piece are those that
/// are behind it.
pub proof fn law_tokens_around_special(
    v: Vocab,
    text: Seq<char>,
    allowed: Set<Seq<char>>,
    from: int,
    start: usize,
    end: usize,
)
    requires
        next_special(v.special_regex, text, allowed, from) == SpecialSearch::Found(start, end),
        from < end <= encode_utf8(text).len(),
    ensures
        ({
            let bytes = encode_utf8(text);
            let special = decode_utf8(bytes.subrange(start as int, end as int));
            let before = ordinary_encoding(v, decode_utf8(bytes.subrange(from, start as int)));
            match (before, encoding_from(v, text, allowed, end as int)) {
                (Encoding::Tokens(tokens, _), Encoding::Tokens(rest, last)) =>
                    v.special_encoder.contains_key(special) ==> encoding_from(
                    v,
                    text,
                    allowed,
                    from,
                ) == Encoding::Tokens(tokens + seq![v.special_encoder[special]] + rest, last),
                (Encoding::Tokens(_, _), other) => v.special_encoder.contains_key(special)
                    ==> encoding_from(v, text, allowed, from) == other,
                (other, _) => encoding_from(v, text, allowed, from) == other,
            }
        }),
{
    let bytes = encode_utf8(text);
    let special = decode_utf8(bytes.subrange(start as int, end as int));
    law_stretch_before_special(v, decode_utf8(bytes.subrange(from, start as int)), special);
}

/// A text in which no allowed special token is found has its regular tokens.
pub proof fn law_tokens_without_special(
    v: Vocab,
    text: Seq<char>,
    allowed: Set<Seq<char>>,
    from: int,
)
    requires
        next_special(v.special_regex, text, allowed, from) is Absent,
    ensures
        encoding_from(v, text, allowed, from) == ordinary_encoding(
            v,
            decode_utf8(encode_utf8(text).subrange(from, encode_utf8(text).len() as int)),
        ),
        from == 0 ==> encoding(v, text, allowed) == ordinary_encoding(v, text),
{
    encode_utf8_decode_utf8(text);
    assert(encode_utf8(text).subrange(0, encode_utf8(text).len() as int) =~= encode_utf8(text));
}

/// Encoding a text starts at its first byte.
pub proof fn law_encoding_starts_at_first_byte(v: Vocab, text: Seq<char>, allowed: Set<Seq<char>>)
    ensures
        encoding(v, text, allowed) == encoding_from(v, text, allowed, 0),
{
}

} // verus!
