//! What becomes of the end of a text that may go on, and of the bytes behind a text.
use vstd::prelude::*;
use vstd::utf8::*;

use crate::bpe::Rank;
use crate::bpe::{bpe_encodable, bpe_encode};
use crate::encode_bytes::{bytes_encoding, lemma_valid_up_to, valid_up_to, with_rest};
use crate::text::is_white_space;
use crate::unstable::{
    completions, completions_defined, cut, cut_before, ends_with_space, is_cut, is_space,
    is_space_token, is_straddling, is_whole, lemma_last_bounded, lemma_unstable_count, over_space,
    retokenised, straddling, unstable_count, unstable_encoding, unstable_of_tokens,
};
use crate::vocab::{Encoding, Vocab, decoded, encoding, ordinary_encoding};

verus! {

/// Every byte of a regular token is a space, a line feed or a tab, however many there are.
pub open spec fn holds_only_space(v: Vocab, token: Rank) -> bool {
    v.decoder.contains_key(token) && forall|i: int|
        0 <= i < v.decoder[token].len() ==> {
            ||| #[trigger] v.decoder[token][i] == 0x20
            ||| v.decoder[token][i] == 0x0a
            ||| v.decoder[token][i] == 0x09
        }
}

/// The first `len` tokens stay when a text goes on whose last piece has `last` tokens: all,
/// where it ends with a special token. Else those before the last piece; where that starts
/// with a token of space, also the tokens of space before it do not stay, up to the first
/// that is none.
pub open spec fn is_stable_len(v: Vocab, tokens: Seq<Rank>, last: nat, len: int) -> bool {
    &&& 0 <= len
    &&& len + last <= tokens.len()
    &&& if last == 0 {
        len == tokens.len()
    } else if holds_only_space(v, tokens[tokens.len() - last]) {
        &&& forall|i: int|
            len <= i < tokens.len() - last ==> holds_only_space(v, #[trigger] tokens[i])
        &&& len > 0 ==> !holds_only_space(v, tokens[len - 1])
    } else {
        len + last == tokens.len()
    }
}

/// Both ways to say that a token is of space agree.
proof fn lemma_space_token(v: Vocab, token: Rank)
    ensures
        is_space_token(v, token) == holds_only_space(v, token),
{
    if v.decoder.contains_key(token) {
        let bytes = v.decoder[token];
        if is_space_token(v, token) {
            assert forall|i: int| 0 <= i < bytes.len() implies #[trigger] bytes[i] == 0x20
                || bytes[i] == 0x0a || bytes[i] == 0x09 by {
                assert(is_space(bytes[i]));
            }
        }
        if holds_only_space(v, token) {
            assert forall|i: int| 0 <= i < bytes.len() implies is_space(#[trigger] bytes[i]) by {
                assert(bytes[i] == v.decoder[token][i]);
            }
        }
    }
}

/// Where taking in space ends.
proof fn lemma_over_space(v: Vocab, tokens: Seq<Rank>, count: nat)
    requires
        count <= tokens.len(),
    ensures
        count <= over_space(v, tokens, count) <= tokens.len(),
        forall|i: int|
            tokens.len() - over_space(v, tokens, count) <= i < tokens.len() - count
                ==> holds_only_space(v, #[trigger] tokens[i]),
        over_space(v, tokens, count) < tokens.len() ==> !holds_only_space(
            v,
            tokens[tokens.len() - over_space(v, tokens, count) - 1],
        ),
    decreases tokens.len() - count,
{
    if count < tokens.len() {
        lemma_space_token(v, tokens[tokens.len() - count - 1]);
        if is_space_token(v, tokens[tokens.len() - count - 1]) {
            lemma_over_space(v, tokens, count + 1);
        }
    }
}

/// The tokens before the unstable ones are those that stay.
proof fn lemma_stable_len(v: Vocab, tokens: Seq<Rank>, last: nat)
    requires
        last <= tokens.len(),
    ensures
        is_stable_len(v, tokens, last, tokens.len() - unstable_count(v, tokens, last)),
{
    if last > 0 {
        lemma_space_token(v, tokens[tokens.len() - last]);
        lemma_over_space(v, tokens, last);
    }
}

/// The number of unstable tokens leaves those that stay.
pub proof fn law_unstable_count_leaves_stable(v: Vocab, tokens: Seq<Rank>, last: nat)
    requires
        last <= tokens.len(),
    ensures
        unstable_count(v, tokens, last) <= tokens.len(),
        is_stable_len(v, tokens, last, tokens.len() - unstable_count(v, tokens, last)),
{
    lemma_unstable_count(v, tokens, last);
    lemma_stable_len(v, tokens, last);
}

/// It is settled how many tokens stay.
proof fn lemma_stable_len_unique(v: Vocab, tokens: Seq<Rank>, last: nat, a: int, b: int)
    requires
        is_stable_len(v, tokens, last, a),
        is_stable_len(v, tokens, last, b),
    ensures
        a == b,
{
    if last > 0 && a < b {
        assert(tokens[b - 1] == tokens[b - 1]);
    } else if last > 0 && b < a {
        assert(tokens[a - 1] == tokens[a - 1]);
    }
}

/// The stable tokens of a text that may go on are those that stay: its first ones, none of
/// the last piece, and where that starts with space, none of the space before it.
pub proof fn law_stable_tokens_stay(v: Vocab, text: Seq<char>, allowed: Set<Seq<char>>)
    ensures
        unstable_encoding(v, text, allowed) matches Some((stable, _)) ==> {
            &&& encoding(v, text, allowed) is Tokens
            &&& stable == encoding(v, text, allowed)->Tokens_0.take(stable.len() as int)
            &&& is_stable_len(
                v,
                encoding(v, text, allowed)->Tokens_0,
                encoding(v, text, allowed)->Tokens_1,
                stable.len() as int,
            )
        },
{
    lemma_last_bounded(v, text, allowed, 0);
    if let Encoding::Tokens(tokens, last) = encoding(v, text, allowed) {
        lemma_stable_len(v, tokens, last);
        lemma_unstable_count(v, tokens, last);
        assert(tokens.take(tokens.len() as int) =~= tokens);
    }
}

/// The last stable token, where a text that may go on has one before a last piece that
/// starts with space, is one that is not regular or has a byte other than a space, a line
/// feed and a tab.
pub proof fn law_last_stable_token(v: Vocab, text: Seq<char>, allowed: Set<Seq<char>>)
    requires
        unstable_encoding(v, text, allowed) is Some,
    ensures
        encoding(v, text, allowed) matches Encoding::Tokens(tokens, last) && {
            let (stable, _) = unstable_encoding(v, text, allowed)->0;
            last > 0 && holds_only_space(v, tokens[tokens.len() - last]) && stable.len() > 0
                ==> !v.decoder.contains_key(stable.last()) || exists|i: int|
                0 <= i < v.decoder[stable.last()].len() && !(
                #[trigger] v.decoder[stable.last()][i] == 0x20 || v.decoder[stable.last()][i]
                    == 0x0a || v.decoder[stable.last()][i] == 0x09)
        },
{
    law_stable_tokens_stay(v, text, allowed);
    let (stable, _) = unstable_encoding(v, text, allowed)->0;
    if let Encoding::Tokens(tokens, last) = encoding(v, text, allowed) {
        if last > 0 && holds_only_space(v, tokens[tokens.len() - last]) && stable.len() > 0 {
            assert(stable.last() == tokens[stable.len() - 1]);
            assert(!holds_only_space(v, stable.last()));
        }
    }
}

/// The tokens that do not stay are decoded, and their bytes are completed: all of them
/// together, and nothing else.
pub proof fn law_rest_is_completed(v: Vocab, tokens: Seq<Rank>, last: nat, len: int)
    requires
        is_stable_len(v, tokens, last, len),
    ensures
        unstable_of_tokens(v, tokens, last) == (match decoded(v, tokens.skip(len)) {
            Ok(bytes) => if bytes.len() == 0 {
                Some((tokens.take(len), Set::empty()))
            } else if completions_defined(v, bytes) {
                Some((tokens.take(len), completions(v, bytes)))
            } else {
                None
            },
            Err(_) => None,
        }),
{
    lemma_stable_len(v, tokens, last);
    lemma_stable_len_unique(
        v,
        tokens,
        last,
        len,
        tokens.len() - unstable_count(v, tokens, last),
    );
    if last == 0 {
        assert(tokens.take(len) =~= tokens);
        assert(tokens.skip(len) =~= Seq::<Rank>::empty());
    }
}

/// Encoding a text that may go on starts with the tokens of the text, and has no answer
/// where that has none.
pub proof fn law_unstable_starts_with_tokens(v: Vocab, text: Seq<char>, allowed: Set<Seq<char>>)
    ensures
        encoding(v, text, allowed) matches Encoding::Tokens(tokens, last) ==> last <= tokens.len()
            && unstable_encoding(v, text, allowed) == unstable_of_tokens(v, tokens, last),
        !(encoding(v, text, allowed) is Tokens) ==> unstable_encoding(v, text, allowed) is None,
{
    lemma_last_bounded(v, text, allowed, 0);
}

/// The bytes of regular tokens, behind each other.
pub open spec fn regular_bytes(v: Vocab, tokens: Seq<Rank>) -> Seq<u8> {
    Seq::new(tokens.len(), |i: int| v.decoder[tokens[i]]).flatten()
}

/// The tokens `kept` are the first of the tokens `all`, and regular ones: as few as have
/// `len` bytes, or all of them.
pub open spec fn is_least_cover(v: Vocab, all: Seq<Rank>, len: int, kept: Seq<Rank>) -> bool {
    &&& kept.len() <= all.len()
    &&& kept == all.take(kept.len() as int)
    &&& forall|i: int| 0 <= i < kept.len() ==> v.decoder.contains_key(#[trigger] kept[i])
    &&& regular_bytes(v, kept).len() >= len || kept == all
    &&& kept.len() > 0 ==> regular_bytes(v, kept.drop_last()).len() < len
}

/// The bytes of regular tokens start with those of the first.
proof fn lemma_regular_bytes_first(v: Vocab, tokens: Seq<Rank>)
    requires
        tokens.len() > 0,
    ensures
        regular_bytes(v, tokens) == v.decoder[tokens[0]] + regular_bytes(v, tokens.skip(1)),
{
    let parts = Seq::new(tokens.len(), |i: int| v.decoder[tokens[i]]);
    let rest = tokens.skip(1);
    assert(parts.drop_first() =~= Seq::new(rest.len(), |i: int| v.decoder[rest[i]]));
    assert(parts.flatten() =~= parts.first() + parts.drop_first().flatten());
}

/// Without tokens there are no bytes.
proof fn lemma_regular_bytes_none(v: Vocab)
    ensures
        regular_bytes(v, Seq::empty()).len() == 0,
{
    assert(Seq::new(0, |i: int| v.decoder[Seq::<Rank>::empty()[i]]) =~= Seq::<Seq<u8>>::empty());
}

/// The tokens that are kept are as few as cover the bytes.
proof fn lemma_cut_covers(v: Vocab, all: Seq<Rank>, len: int)
    requires
        len > 0,
    ensures
        cut(v, all, len) matches Some(kept) ==> is_least_cover(v, all, len, kept),
    decreases all.len(),
{
    lemma_regular_bytes_none(v);
    if let Some(kept) = cut(v, all, len) {
        if all.len() == 0 {
            assert(kept =~= all.take(0));
            assert(kept =~= all);
        } else {
            let own = v.decoder[all[0]].len();
            if own >= len {
                assert(kept =~= all.take(1));
                lemma_regular_bytes_first(v, kept);
                assert(kept.drop_last() =~= Seq::<Rank>::empty());
            } else {
                let rest = all.skip(1);
                lemma_cut_covers(v, rest, len - own);
                let more = cut(v, rest, len - own)->0;
                assert(kept == seq![all[0]] + more);
                assert(kept =~= all.take(kept.len() as int)) by {
                    assert forall|i: int| 0 <= i < kept.len() implies kept[i] == all[i] by {
                        if i > 0 {
                            assert(more[i - 1] == rest.take(more.len() as int)[i - 1]);
                        }
                    }
                }
                assert(kept.skip(1) =~= more);
                lemma_regular_bytes_first(v, kept);
                if more == rest {
                    assert(kept =~= all);
                }
                if more.len() > 0 {
                    lemma_regular_bytes_first(v, kept.drop_last());
                    assert(kept.drop_last().skip(1) =~= more.drop_last());
                } else {
                    assert(kept.drop_last() =~= Seq::<Rank>::empty());
                }
                assert forall|i: int| 0 <= i < kept.len() implies v.decoder.contains_key(
                    #[trigger] kept[i],
                ) by {
                    if i > 0 {
                        assert(kept[i] == more[i - 1]);
                    }
                }
            }
        }
    }
}

/// Tokens that are as few as cover the bytes are those that are kept.
proof fn lemma_cover_is_cut(v: Vocab, all: Seq<Rank>, len: int, kept: Seq<Rank>)
    requires
        len > 0,
        is_least_cover(v, all, len, kept),
    ensures
        cut(v, all, len) == Some(kept),
    decreases all.len(),
{
    lemma_regular_bytes_none(v);
    if all.len() == 0 {
        assert(kept =~= Seq::<Rank>::empty());
    } else {
        if kept.len() == 0 {
            assert(kept =~= Seq::<Rank>::empty());
            assert(false);
        }
        assert(kept[0] == all[0]);
        let own = v.decoder[all[0]].len();
        lemma_regular_bytes_first(v, kept);
        if kept.len() > 1 {
            lemma_regular_bytes_first(v, kept.drop_last());
        }
        let rest = all.skip(1);
        let more = kept.skip(1);
        if own >= len {
            assert(kept.len() == 1);
            assert(kept =~= seq![all[0]]);
        } else {
            assert(more =~= rest.take(more.len() as int)) by {
                assert forall|i: int| 0 <= i < more.len() implies more[i] == rest[i] by {
                    assert(kept[i + 1] == all.take(kept.len() as int)[i + 1]);
                }
            }
            if kept == all {
                assert(more =~= rest);
            }
            if more.len() > 0 {
                assert(kept.drop_last().skip(1) =~= more.drop_last());
            }
            assert forall|i: int| 0 <= i < more.len() implies v.decoder.contains_key(
                #[trigger] more[i],
            ) by {
                assert(more[i] == kept[i + 1]);
            }
            lemma_cover_is_cut(v, rest, len - own, more);
            assert(kept =~= seq![all[0]] + more);
        }
    }
}

/// Of the tokens of a completion as many are kept as cover the bytes, and no more: all that
/// are kept are regular ones.
pub proof fn law_cut_is_least_cover(v: Vocab, all: Seq<Rank>, len: int, kept: Seq<Rank>)
    requires
        len > 0,
    ensures
        cut(v, all, len) == Some(kept) <==> is_least_cover(v, all, len, kept),
{
    lemma_cut_covers(v, all, len);
    if is_least_cover(v, all, len, kept) {
        lemma_cover_is_cut(v, all, len, kept);
    }
}

/// The tokens of some bytes without special tokens: those of the text, where they are the
/// bytes of one, else those of byte pair encoding of all of them.
pub open spec fn are_tokens_of(v: Vocab, bytes: Seq<u8>, tokens: Seq<Rank>) -> bool {
    if valid_utf8(bytes) {
        ordinary_encoding(v, decode_utf8(bytes)) is Tokens && ordinary_encoding(
            v,
            decode_utf8(bytes),
        )->Tokens_0 == tokens
    } else {
        bpe_encodable(v.encoder, bytes) && bpe_encode(v.encoder, bytes) == tokens
    }
}

/// The tokens are those that cover the unstable bytes when `token` stands at `at` in them
/// and goes on behind their end.
pub open spec fn straddles(
    v: Vocab,
    unstable: Seq<u8>,
    at: int,
    token: Seq<u8>,
    tokens: Seq<Rank>,
) -> bool {
    &&& 1 <= at < unstable.len()
    &&& v.encoder.contains_key(token)
    &&& unstable.skip(at).is_prefix_of(token)
    &&& exists|all: Seq<Rank>| #[trigger]
        are_tokens_of(v, unstable.take(at) + token, all) && is_least_cover(
            v,
            all,
            unstable.len() as int,
            tokens,
        )
}

/// The tokens are those of the unstable bytes with a cut before the character `c` of white
/// space at their end.
pub open spec fn splits_off(v: Vocab, unstable: Seq<u8>, c: char, tokens: Seq<Rank>) -> bool {
    let len = encode_utf8(seq![c]).len();
    &&& is_white_space(c)
    &&& len < unstable.len()
    &&& unstable.skip(unstable.len() - len) == encode_utf8(seq![c])
    &&& bpe_encodable(v.encoder, unstable.take(unstable.len() - len))
    &&& bpe_encodable(v.encoder, encode_utf8(seq![c]))
    &&& tokens == bpe_encode(v.encoder, unstable.take(unstable.len() - len)) + bpe_encode(
        v.encoder,
        encode_utf8(seq![c]),
    )
}

/// What straddling comes to.
proof fn lemma_straddles(
    v: Vocab,
    unstable: Seq<u8>,
    at: int,
    token: Seq<u8>,
    tokens: Seq<Rank>,
)
    requires
        1 <= at < unstable.len(),
        v.encoder.contains_key(token),
        unstable.skip(at).is_prefix_of(token),
    ensures
        straddling(v, unstable, at, token) == Some(tokens) <==> straddles(
            v,
            unstable,
            at,
            token,
            tokens,
        ),
{
    let bytes = unstable.take(at) + token;
    let len = unstable.len() as int;
    if straddling(v, unstable, at, token) == Some(tokens) {
        let all = retokenised(v, bytes)->0;
        assert(are_tokens_of(v, bytes, all));
        law_cut_is_least_cover(v, all, len, tokens);
    }
    if straddles(v, unstable, at, token, tokens) {
        let all = choose|all: Seq<Rank>| #[trigger]
            are_tokens_of(v, bytes, all) && is_least_cover(v, all, len, tokens);
        assert(retokenised(v, bytes) == Some(all));
        law_cut_is_least_cover(v, all, len, tokens);
    }
}

/// What a cut before white space comes to.
proof fn lemma_splits_off(v: Vocab, unstable: Seq<u8>, c: char, tokens: Seq<Rank>)
    ensures
        ends_with_space(unstable, c) && cut_before(v, unstable, c) == Some(tokens) <==> splits_off(
            v,
            unstable,
            c,
            tokens,
        ),
{
    let bytes = encode_utf8(seq![c]);
    if bytes.len() < unstable.len() {
        let back = unstable.skip(unstable.len() - bytes.len());
        assert(back =~= unstable.subrange(
            unstable.len() - bytes.len(),
            unstable.len() as int,
        ));
    }
}

/// What unstable bytes may come to: a single token that starts with them; the tokens that
/// cover them when some token stands at any place in them and goes on behind their end; and
/// their tokens with a cut before white space at their end. And nothing else.
pub proof fn law_completions_are(v: Vocab, unstable: Seq<u8>, tokens: Seq<Rank>)
    ensures
        completions(v, unstable).contains(tokens) <==> {
            ||| exists|token: Seq<u8>| #[trigger]
                v.encoder.contains_key(token) && unstable.is_prefix_of(token) && tokens.len() == 1
                    && tokens[0] == v.encoder[token]
            ||| exists|at: int, token: Seq<u8>| #[trigger]
                straddles(v, unstable, at, token, tokens)
            ||| exists|c: char| #[trigger] splits_off(v, unstable, c, tokens)
        },
{
    if completions(v, unstable).contains(tokens) {
        if is_whole(v, unstable, tokens) {
            let token = choose|token: Seq<u8>| #[trigger]
                v.encoder.contains_key(token) && unstable.is_prefix_of(token) && tokens
                    == seq![v.encoder[token]];
            assert(tokens.len() == 1);
        } else if is_cut(v, unstable, tokens) {
            let c = choose|c: char| #[trigger]
                ends_with_space(unstable, c) && cut_before(v, unstable, c) == Some(tokens);
            lemma_splits_off(v, unstable, c, tokens);
        } else {
            let at = choose|at: int|
                1 <= at < unstable.len() && #[trigger] is_straddling(v, unstable, at, tokens);
            let token = choose|token: Seq<u8>| #[trigger]
                v.encoder.contains_key(token) && unstable.skip(at).is_prefix_of(token)
                    && straddling(v, unstable, at, token) == Some(tokens);
            lemma_straddles(v, unstable, at, token, tokens);
        }
    }
    if exists|token: Seq<u8>| #[trigger]
        v.encoder.contains_key(token) && unstable.is_prefix_of(token) && tokens.len() == 1
            && tokens[0] == v.encoder[token] {
        let token = choose|token: Seq<u8>| #[trigger]
            v.encoder.contains_key(token) && unstable.is_prefix_of(token) && tokens.len() == 1
                && tokens[0] == v.encoder[token];
        assert(tokens =~= seq![v.encoder[token]]);
        assert(is_whole(v, unstable, tokens));
    }
    if exists|at: int, token: Seq<u8>| #[trigger] straddles(v, unstable, at, token, tokens) {
        let (at, token) = choose|at: int, token: Seq<u8>| #[trigger]
            straddles(v, unstable, at, token, tokens);
        lemma_straddles(v, unstable, at, token, tokens);
        assert(is_straddling(v, unstable, at, tokens));
    }
    if exists|c: char| #[trigger] splits_off(v, unstable, c, tokens) {
        let c = choose|c: char| #[trigger] splits_off(v, unstable, c, tokens);
        lemma_splits_off(v, unstable, c, tokens);
        assert(is_cut(v, unstable, tokens));
    }
}

/// Every token that goes on behind the end of unstable bytes has an answer, at every place.
pub open spec fn straddling_has_answers(v: Vocab, unstable: Seq<u8>) -> bool {
    forall|at: int, token: Seq<u8>|
        #![trigger v.encoder.contains_key(token), unstable.skip(at)]
        1 <= at < unstable.len() && v.encoder.contains_key(token) && unstable.skip(
            at,
        ).is_prefix_of(token) ==> exists|tokens: Seq<Rank>| #[trigger]
            straddles(v, unstable, at, token, tokens)
}

/// White space at the end of unstable bytes has an answer.
pub open spec fn splitting_has_answers(v: Vocab, unstable: Seq<u8>) -> bool {
    forall|c: char|
        #![trigger encode_utf8(seq![c])]
        is_white_space(c) && encode_utf8(seq![c]).len() < unstable.len() && unstable.skip(
            unstable.len() - encode_utf8(seq![c]).len(),
        ) == encode_utf8(seq![c]) ==> exists|tokens: Seq<Rank>| #[trigger]
            splits_off(v, unstable, c, tokens)
}

/// There is an answer to what unstable bytes may come to exactly where there is one for
/// every token that goes on behind their end, at every place, and for white space at their
/// end.
pub proof fn law_completions_have_all_answers(v: Vocab, unstable: Seq<u8>)
    ensures
        completions_defined(v, unstable) <==> straddling_has_answers(v, unstable)
            && splitting_has_answers(v, unstable),
{
    if completions_defined(v, unstable) {
        assert forall|at: int, token: Seq<u8>|
            #![trigger v.encoder.contains_key(token), unstable.skip(at)]
            1 <= at < unstable.len() && v.encoder.contains_key(token) && unstable.skip(
                at,
            ).is_prefix_of(token) implies exists|tokens: Seq<Rank>| #[trigger]
            straddles(v, unstable, at, token, tokens) by {
            assert(straddling(v, unstable, at, token) is Some);
            lemma_straddles(v, unstable, at, token, straddling(v, unstable, at, token)->0);
        }
        assert(straddling_has_answers(v, unstable));
        assert forall|c: char|
            #![trigger encode_utf8(seq![c])]
            is_white_space(c) && encode_utf8(seq![c]).len() < unstable.len() && unstable.skip(
                unstable.len() - encode_utf8(seq![c]).len(),
            ) == encode_utf8(seq![c]) implies exists|tokens: Seq<Rank>| #[trigger]
            splits_off(v, unstable, c, tokens) by {
            let at = unstable.len() - encode_utf8(seq![c]).len();
            assert(unstable.skip(at) =~= unstable.subrange(at, unstable.len() as int));
            assert(ends_with_space(unstable, c));
            lemma_splits_off(v, unstable, c, cut_before(v, unstable, c)->0);
        }
        assert(splitting_has_answers(v, unstable));
    }
    if straddling_has_answers(v, unstable) && splitting_has_answers(v, unstable) {
        assert forall|at: int, token: Seq<u8>|
            #![trigger straddling(v, unstable, at, token)]
            1 <= at < unstable.len() && v.encoder.contains_key(token) && unstable.skip(
                at,
            ).is_prefix_of(token) implies straddling(v, unstable, at, token) is Some by {
            let tokens = choose|tokens: Seq<Rank>| #[trigger]
                straddles(v, unstable, at, token, tokens);
            lemma_straddles(v, unstable, at, token, tokens);
        }
        assert forall|c: char| #[trigger] ends_with_space(unstable, c) implies cut_before(
            v,
            unstable,
            c,
        ) is Some by {
            let at = unstable.len() - encode_utf8(seq![c]).len();
            assert(unstable.skip(at) =~= unstable.subrange(at, unstable.len() as int));
            assert(unstable.skip(at) =~= encode_utf8(seq![c]));
            let tokens = choose|tokens: Seq<Rank>| #[trigger] splits_off(v, unstable, c, tokens);
            assert(splits_off(v, unstable, c, tokens));
            lemma_splits_off(v, unstable, c, tokens);
        }
    }
}

/// The tokens of bytes that are not those of a text: of the longest start of them that is a
/// text, the tokens that stay; and behind them those of one piece, which is all bytes that
/// the other tokens of the text stand for, and the rest. A piece that is a token is that
/// token, else byte pair encoding gives its tokens.
pub proof fn law_rest_joins_last_piece(v: Vocab, bytes: Seq<u8>, len: int, stable: int)
    requires
        !valid_utf8(bytes),
        0 <= len <= bytes.len(),
        valid_utf8(bytes.take(len)),
        forall|longer: int|
            len < longer <= bytes.len() ==> !valid_utf8(#[trigger] bytes.take(longer)),
        encoding(v, decode_utf8(bytes.take(len)), Set::empty()) matches Encoding::Tokens(
            tokens,
            last,
        ) && is_stable_len(v, tokens, last, stable) && decoded(v, tokens.skip(stable)) is Ok,
    ensures
        ({
            let tokens = encoding(v, decode_utf8(bytes.take(len)), Set::empty())->Tokens_0;
            let piece = decoded(v, tokens.skip(stable))->Ok_0 + bytes.skip(len);
            bytes_encoding(v, bytes) == if v.encoder.contains_key(piece) {
                Some(tokens.take(stable).push(v.encoder[piece]))
            } else if bpe_encodable(v.encoder, piece) {
                Some(tokens.take(stable) + bpe_encode(v.encoder, piece))
            } else {
                None
            }
        }),
{
    lemma_valid_up_to(bytes);
    let own = valid_up_to(bytes);
    if own < len {
        assert(!valid_utf8(bytes.take(len)));
    } else if own > len {
        assert(!valid_utf8(bytes.take(own)));
    }
    if len == bytes.len() {
        assert(bytes.take(len) =~= bytes);
    }
    if let Encoding::Tokens(tokens, last) = encoding(v, decode_utf8(bytes.take(len)), Set::empty())
    {
        law_rest_joins_tokens(v, tokens, last, bytes.skip(len), stable);
    }
}

/// Bytes of a text are encoded as the text.
pub proof fn law_bytes_of_text_are_text(v: Vocab, bytes: Seq<u8>)
    requires
        valid_utf8(bytes),
    ensures
        bytes_encoding(v, bytes) == (match ordinary_encoding(v, decode_utf8(bytes)) {
            Encoding::Tokens(tokens, _) => Some(tokens),
            _ => None,
        }),
{
}

/// Bytes that are not those of a text have no tokens where the text at their start has
/// none, or where a token at its end decodes to nothing.
pub proof fn law_rest_without_answer(v: Vocab, bytes: Seq<u8>, len: int, stable: int)
    requires
        !valid_utf8(bytes),
        0 <= len <= bytes.len(),
        valid_utf8(bytes.take(len)),
        forall|longer: int|
            len < longer <= bytes.len() ==> !valid_utf8(#[trigger] bytes.take(longer)),
        encoding(v, decode_utf8(bytes.take(len)), Set::empty()) matches Encoding::Tokens(
            tokens,
            last,
        ) ==> is_stable_len(v, tokens, last, stable) && decoded(v, tokens.skip(stable)) is Err,
    ensures
        bytes_encoding(v, bytes) is None,
{
    lemma_valid_up_to(bytes);
    let own = valid_up_to(bytes);
    if own < len {
        assert(!valid_utf8(bytes.take(len)));
    } else if own > len {
        assert(!valid_utf8(bytes.take(own)));
    }
    if let Encoding::Tokens(tokens, last) = encoding(v, decode_utf8(bytes.take(len)), Set::empty())
    {
        lemma_stable_len(v, tokens, last);
        let count = unstable_count(v, tokens, last);
        lemma_stable_len_unique(v, tokens, last, stable, tokens.len() - count);
        if stable == tokens.len() {
            assert(tokens.skip(stable) =~= Seq::<Rank>::empty());
        }
    }
}

/// The bytes behind a text are encoded with what does not stay of its tokens.
pub proof fn law_rest_joins_tokens(
    v: Vocab,
    tokens: Seq<Rank>,
    last: nat,
    rest: Seq<u8>,
    stable: int,
)
    requires
        is_stable_len(v, tokens, last, stable),
        decoded(v, tokens.skip(stable)) is Ok,
        rest.len() > 0,
    ensures
        ({
            let piece = decoded(v, tokens.skip(stable))->Ok_0 + rest;
            with_rest(v, tokens, last, rest) == if v.encoder.contains_key(piece) {
                Some(tokens.take(stable).push(v.encoder[piece]))
            } else if bpe_encodable(v.encoder, piece) {
                Some(tokens.take(stable) + bpe_encode(v.encoder, piece))
            } else {
                None
            }
        }),
{
    lemma_stable_len(v, tokens, last);
    let count = unstable_count(v, tokens, last);
    lemma_stable_len_unique(v, tokens, last, stable, tokens.len() - count);
    let piece = decoded(v, tokens.skip(stable))->Ok_0 + rest;
    if stable == tokens.len() {
        assert(tokens.skip(stable) =~= Seq::<Rank>::empty());
        assert(piece =~= rest);
        assert(tokens.take(stable) =~= tokens);
    }
    if v.encoder.contains_key(piece) {
        assert(tokens.take(stable) + seq![v.encoder[piece]] =~= tokens.take(stable).push(
            v.encoder[piece],
        ));
    }
}

} // verus!
