//! Where a text is parted at its special tokens.
use vstd::prelude::*;
use vstd::utf8::*;

use crate::bpe::Rank;
use crate::encode::lemma_next_special;
use crate::laws::{
    law_none_found_is_ordinary, law_ordinary_tokens_are_regular, lemma_text_between,
};
use crate::pattern::{finds_texts, first_match, is_first_of};
use crate::split::{lemma_encode_add, lemma_prefix_is_boundary};
use crate::text::{
    bytes_between, is_text_range, lemma_boundary_in_range, occurs_at, text_between,
};
use crate::vocab::{
    Encoding, SpecialSearch, Vocab, behind, char_start_from, encoding, encoding_from,
    lemma_char_start_from, next_special, ordinary_encoding, stretch_encoding, vocab_wf,
};

verus! {

/// No special token stands in a text between two positions.
pub open spec fn none_between(v: Vocab, text: Seq<char>, from: int, end: int) -> bool {
    forall|special: Seq<char>, pos: int| #[trigger]
        occurs_at(text, special, pos) && from <= pos < end ==> !v.special_encoder.contains_key(
            special,
        )
}

/// The range is that of a special token, and none stands before it from a position on.
pub open spec fn is_first_special(
    v: Vocab,
    text: Seq<char>,
    from: int,
    start: int,
    end: int,
) -> bool {
    &&& from <= start
    &&& none_between(v, text, from, start)
    &&& exists|special: Seq<char>| #[trigger]
        v.special_encoder.contains_key(special) && occurs_at(text, special, start) && end == start
            + encode_utf8(special).len()
}

/// The search for special tokens finds them where they stand in a text: from each start of
/// a character on the first one, and none only where there is none.
pub open spec fn finds_specials(v: Vocab, text: Seq<char>) -> bool {
    forall|from: nat|
        is_char_boundary(encode_utf8(text), from as int) ==> match #[trigger] first_match(
            v.special_regex,
            text,
            from,
        ) {
            Ok(Some((start, end))) => is_first_special(
                v,
                text,
                from as int,
                start as int,
                end as int,
            ),
            Ok(None) => none_between(v, text, from as int, encode_utf8(text).len() as int + 1),
            Err(_) => false,
        }
}

/// There is a special token.
pub open spec fn has_specials(v: Vocab) -> bool {
    exists|special: Seq<char>| #[trigger] v.special_encoder.contains_key(special)
}

/// No special token is empty.
pub open spec fn specials_not_empty(v: Vocab) -> bool {
    forall|special: Seq<char>| #[trigger]
        v.special_encoder.contains_key(special) ==> special.len() > 0
}

/// The search for special tokens finds them in every text that a machine can hold. Where
/// there are none, it finds the empty text everywhere.
pub open spec fn searches_specials(v: Vocab) -> bool {
    if has_specials(v) {
        forall|text: Seq<char>|
            encode_utf8(text).len() <= isize::MAX ==> #[trigger] finds_specials(v, text)
    } else {
        finds_texts(v.special_regex, seq![Seq::empty()])
    }
}

/// A search for the special tokens of a list is one for special tokens.
pub proof fn lemma_searches_specials(v: Vocab, order: Seq<Seq<char>>)
    requires
        forall|special: Seq<char>| #[trigger]
            order.contains(special) <==> v.special_encoder.contains_key(special),
        order.len() > 0 ==> finds_texts(v.special_regex, order),
        order.len() == 0 ==> finds_texts(v.special_regex, seq![Seq::empty()]),
    ensures
        searches_specials(v),
{
    if has_specials(v) {
        let one = choose|special: Seq<char>| #[trigger] v.special_encoder.contains_key(special);
        assert(order.contains(one));
        assert forall|text: Seq<char>|
            encode_utf8(text).len() <= isize::MAX implies #[trigger] finds_specials(v, text) by {
            lemma_finds_specials(v, order, text);
        }
    } else if order.len() > 0 {
        assert(order.contains(order[0]));
    }
}

/// What is the first of a list that stands in a text is the first special token.
proof fn lemma_finds_specials(v: Vocab, order: Seq<Seq<char>>, text: Seq<char>)
    requires
        forall|special: Seq<char>| #[trigger]
            order.contains(special) <==> v.special_encoder.contains_key(special),
        finds_texts(v.special_regex, order),
        encode_utf8(text).len() <= isize::MAX,
    ensures
        finds_specials(v, text),
{
    let len = encode_utf8(text).len() as int;
    assert forall|from: nat| is_char_boundary(encode_utf8(text), from as int) implies (
    match #[trigger] first_match(v.special_regex, text, from) {
        Ok(Some((start, end))) => is_first_special(
            v,
            text,
            from as int,
            start as int,
            end as int,
        ),
        Ok(None) => none_between(v, text, from as int, len + 1),
        Err(_) => false,
    }) by {
        let found = first_match(v.special_regex, text, from);
        assert(is_first_of(order, text, from as int, found));
        let stop = match found {
            Ok(Some((start, _))) => start as int,
            _ => len + 1,
        };
        assert forall|special: Seq<char>, pos: int| #[trigger]
            occurs_at(text, special, pos) && from <= pos < stop implies
            !v.special_encoder.contains_key(special) by {
            if v.special_encoder.contains_key(special) {
                assert(order.contains(special));
                let k = choose|k: int| 0 <= k < order.len() && order[k] == special;
                assert(occurs_at(text, order[k], pos));
            }
        }
        if let Ok(Some((start, end))) = found {
            let k = choose|k: int|
                0 <= k < order.len() && occurs_at(text, #[trigger] order[k], start as int) && end
                    == start + encode_utf8(order[k]).len();
            assert(order.contains(order[k]));
            assert(v.special_encoder.contains_key(order[k]));
        }
    }
}

/// No special token has the rank of a regular one.
pub open spec fn ranks_apart(v: Vocab) -> bool {
    forall|special: Seq<char>| #[trigger]
        v.special_encoder.contains_key(special) ==> !v.decoder.contains_key(
            v.special_encoder[special],
        )
}

/// No two special tokens have the same rank.
pub open spec fn special_ranks_distinct(v: Vocab) -> bool {
    forall|a: Seq<char>, b: Seq<char>|
        #![trigger v.special_encoder[a], v.special_encoder[b]]
        v.special_encoder.contains_key(a) && v.special_encoder.contains_key(b)
            && v.special_encoder[a] == v.special_encoder[b] ==> a == b
}

/// No special token is empty or a prefix of another.
pub open spec fn specials_prefix_free(v: Vocab) -> bool {
    &&& specials_not_empty(v)
    &&& forall|a: Seq<char>, b: Seq<char>|
        #![trigger v.special_encoder.contains_key(a), v.special_encoder.contains_key(b)]
        v.special_encoder.contains_key(a) && v.special_encoder.contains_key(b) && encode_utf8(
            a,
        ).is_prefix_of(encode_utf8(b)) ==> a == b
}

/// No allowed special token stands in a text before a position.
pub open spec fn none_allowed_before(
    v: Vocab,
    text: Seq<char>,
    allowed: Set<Seq<char>>,
    end: int,
) -> bool {
    forall|special: Seq<char>, pos: int| #[trigger]
        occurs_at(text, special, pos) && pos < end ==> !(v.special_encoder.contains_key(special)
            && allowed.contains(special))
}

/// The bytes of what stands in a text.
proof fn lemma_occurs(text: Seq<char>, special: Seq<char>, pos: int)
    requires
        occurs_at(text, special, pos),
    ensures
        0 <= pos,
        pos + encode_utf8(special).len() <= encode_utf8(text).len(),
        bytes_between(text, pos, pos + encode_utf8(special).len()) == encode_utf8(special),
{
    lemma_text_between(text, pos, pos + encode_utf8(special).len());
}

/// Of special tokens of which none is a prefix of another, one stands at a position at
/// most.
proof fn lemma_one_at(v: Vocab, text: Seq<char>, a: Seq<char>, b: Seq<char>, pos: int)
    requires
        specials_prefix_free(v),
        v.special_encoder.contains_key(a),
        v.special_encoder.contains_key(b),
        occurs_at(text, a, pos),
        occurs_at(text, b, pos),
    ensures
        a == b,
{
    let bytes_a = encode_utf8(a);
    let bytes_b = encode_utf8(b);
    lemma_occurs(text, a, pos);
    lemma_occurs(text, b, pos);
    if bytes_a.len() <= bytes_b.len() {
        assert(bytes_a =~= bytes_b.subrange(0, bytes_a.len() as int));
    } else {
        assert(bytes_b =~= bytes_a.subrange(0, bytes_b.len() as int));
    }
}

/// A text that is not empty has bytes.
pub proof fn lemma_some_bytes(text: Seq<char>)
    requires
        text.len() > 0,
    ensures
        encode_utf8(text).len() > 0,
{
    if encode_utf8(text).len() == 0 {
        encode_utf8_decode_utf8(text);
        assert(encode_utf8(text) =~= Seq::<u8>::empty());
        assert(decode_utf8(Seq::<u8>::empty()).len() == 0);
    }
}

/// Where no allowed special token stands in a text, the search finds none.
proof fn lemma_search_absent(v: Vocab, text: Seq<char>, allowed: Set<Seq<char>>, from: int)
    requires
        encode_utf8(text).len() <= usize::MAX,
        finds_specials(v, text),
        none_allowed_before(v, text, allowed, encode_utf8(text).len() as int + 1),
        is_char_boundary(encode_utf8(text), from),
    ensures
        next_special(v.special_regex, text, allowed, from) is Absent,
    decreases encode_utf8(text).len() - from,
{
    let bytes = encode_utf8(text);
    encode_utf8_valid_utf8(text);
    lemma_boundary_in_range(bytes, from);
    if let Ok(Some((start, end))) = first_match(v.special_regex, text, from as nat) {
        assert(is_first_special(v, text, from, start as int, end as int));
        let special = choose|special: Seq<char>| #[trigger]
            v.special_encoder.contains_key(special) && occurs_at(text, special, start as int)
                && end == start + encode_utf8(special).len();
        lemma_occurs(text, special, start as int);
        assert(!allowed.contains(special));
        lemma_char_start_from(bytes, start + 1);
        let again = char_start_from(bytes, start + 1);
        if again <= bytes.len() {
            lemma_search_absent(v, text, allowed, again);
        }
    }
}

/// Where there are no special tokens, the search finds nothing but the empty text, and
/// none of it where that is not allowed.
proof fn lemma_search_without_specials(
    v: Vocab,
    text: Seq<char>,
    allowed: Set<Seq<char>>,
    from: int,
)
    requires
        encode_utf8(text).len() <= isize::MAX,
        finds_texts(v.special_regex, seq![Seq::empty()]),
        !allowed.contains(Seq::empty()),
        is_char_boundary(encode_utf8(text), from),
    ensures
        next_special(v.special_regex, text, allowed, from) is Absent,
    decreases encode_utf8(text).len() - from,
{
    let bytes = encode_utf8(text);
    let order: Seq<Seq<char>> = seq![Seq::empty()];
    encode_utf8_valid_utf8(text);
    lemma_boundary_in_range(bytes, from);
    let found = first_match(v.special_regex, text, from as nat);
    assert(is_first_of(order, text, from, found));
    if let Ok(Some((start, end))) = found {
        let k = choose|k: int|
            0 <= k < order.len() && occurs_at(text, #[trigger] order[k], start as int) && end
                == start + encode_utf8(order[k]).len();
        assert(order[k] =~= Seq::<char>::empty());
        lemma_occurs(text, order[k], start as int);
        lemma_char_start_from(bytes, start + 1);
        let again = char_start_from(bytes, start + 1);
        if again <= bytes.len() {
            lemma_search_without_specials(v, text, allowed, again);
        }
    }
}

/// A text in which no allowed special token stands is encoded with regular tokens only,
/// also where others stand in it. Where there are no special tokens at all, the empty text
/// must not be among the allowed ones: the search finds it, and it has no rank.
pub proof fn law_none_allowed_is_ordinary(v: Vocab, text: Seq<char>, allowed: Set<Seq<char>>)
    requires
        encode_utf8(text).len() <= isize::MAX,
        searches_specials(v),
        has_specials(v) || !allowed.contains(Seq::empty()),
        none_allowed_before(v, text, allowed, encode_utf8(text).len() as int + 1),
    ensures
        next_special(v.special_regex, text, allowed, 0) is Absent,
        encoding(v, text, allowed) == ordinary_encoding(v, text),
{
    encode_utf8_valid_utf8(text);
    is_char_boundary_start_end_of_seq(encode_utf8(text));
    if has_specials(v) {
        lemma_search_absent(v, text, allowed, 0);
    } else {
        lemma_search_without_specials(v, text, allowed, 0);
    }
    law_none_found_is_ordinary(v, text, allowed);
}

/// The search for an allowed special token has an answer: there is none, or one that has a
/// rank.
pub proof fn lemma_search_has_answer(
    v: Vocab,
    text: Seq<char>,
    allowed: Set<Seq<char>>,
    from: int,
)
    requires
        encode_utf8(text).len() <= isize::MAX,
        searches_specials(v),
        specials_not_empty(v),
        has_specials(v) || !allowed.contains(Seq::empty()),
        is_char_boundary(encode_utf8(text), from),
    ensures
        match next_special(v.special_regex, text, allowed, from) {
            SpecialSearch::Found(start, end) => start < end && v.special_encoder.contains_key(
                text_between(text, start as int, end as int),
            ),
            SpecialSearch::Absent => true,
            _ => false,
        },
    decreases encode_utf8(text).len() - from,
{
    let bytes = encode_utf8(text);
    encode_utf8_valid_utf8(text);
    lemma_boundary_in_range(bytes, from);
    if !has_specials(v) {
        lemma_search_without_specials(v, text, allowed, from);
    } else {
        assert(finds_specials(v, text));
        if let Ok(Some((start, end))) = first_match(v.special_regex, text, from as nat) {
            assert(is_first_special(v, text, from, start as int, end as int));
            let special = choose|special: Seq<char>| #[trigger]
                v.special_encoder.contains_key(special) && occurs_at(text, special, start as int)
                    && end == start + encode_utf8(special).len();
            lemma_occurs(text, special, start as int);
            lemma_some_bytes(special);
            lemma_char_start_from(bytes, start + 1);
            let again = char_start_from(bytes, start + 1);
            if !allowed.contains(special) && again <= bytes.len() {
                lemma_search_has_answer(v, text, allowed, again);
            }
        }
    }
}

/// The search finds the first allowed special token.
proof fn lemma_search_finds(
    v: Vocab,
    text: Seq<char>,
    allowed: Set<Seq<char>>,
    from: int,
    special: Seq<char>,
    at: int,
)
    requires
        encode_utf8(text).len() <= usize::MAX,
        finds_specials(v, text),
        specials_prefix_free(v),
        v.special_encoder.contains_key(special),
        allowed.contains(special),
        occurs_at(text, special, at),
        none_allowed_before(v, text, allowed, at),
        is_char_boundary(encode_utf8(text), from),
        0 <= from <= at,
    ensures
        next_special(v.special_regex, text, allowed, from) == SpecialSearch::Found(
            at as usize,
            (at + encode_utf8(special).len()) as usize,
        ),
    decreases at - from,
{
    let bytes = encode_utf8(text);
    encode_utf8_valid_utf8(text);
    lemma_occurs(text, special, at);
    let found = first_match(v.special_regex, text, from as nat);
    if found == Ok::<Option<(usize, usize)>, Seq<char>>(None) {
        assert(none_between(v, text, from, bytes.len() as int + 1));
        assert(false);
    }
    if let Ok(Some((start, end))) = found {
        assert(is_first_special(v, text, from, start as int, end as int));
        let first = choose|first: Seq<char>| #[trigger]
            v.special_encoder.contains_key(first) && occurs_at(text, first, start as int) && end
                == start + encode_utf8(first).len();
        assert(start <= at) by {
            if start > at {
                assert(none_between(v, text, from, start as int));
            }
        }
        lemma_occurs(text, first, start as int);
        if start == at {
            lemma_one_at(v, text, first, special, at);
        } else {
            assert(!allowed.contains(first));
            lemma_char_start_from(bytes, start + 1);
            let again = char_start_from(bytes, start + 1);
            assert(again <= at) by {
                assert(is_char_boundary(bytes, at));
            }
            lemma_search_finds(v, text, allowed, again, special, at);
        }
    }
}

/// Where the search finds an allowed special token, encoding parts: the regular tokens of
/// what stands before it, its rank, and the encoding of what stands behind it.
pub proof fn law_encode_parts_where_found(
    v: Vocab,
    text: Seq<char>,
    allowed: Set<Seq<char>>,
    start: usize,
    end: usize,
)
    requires
        next_special(v.special_regex, text, allowed, 0) == SpecialSearch::Found(start, end),
        0 < end <= encode_utf8(text).len(),
        v.special_encoder.contains_key(text_between(text, start as int, end as int)),
        ordinary_encoding(v, text_between(text, 0, start as int)) is Tokens,
    ensures
        encoding(v, text, allowed) == behind(
            ordinary_encoding(v, text_between(text, 0, start as int))->Tokens_0.push(
                v.special_encoder[text_between(text, start as int, end as int)],
            ),
            encoding_from(v, text, allowed, end as int),
        ),
{
}

/// The starts of characters stay where they are when a text comes before them.
proof fn lemma_boundary_behind(head: Seq<char>, rest: Seq<char>, i: int)
    ensures
        0 <= i ==> (is_char_boundary(encode_utf8(head + rest), encode_utf8(head).len() + i)
            <==> is_char_boundary(encode_utf8(rest), i)),
{
    let bytes = encode_utf8(head + rest);
    let tail = encode_utf8(rest);
    let base = encode_utf8(head).len() as int;
    lemma_encode_add(head, rest);
    encode_utf8_valid_utf8(head + rest);
    encode_utf8_valid_utf8(rest);
    is_char_boundary_start_end_of_seq(bytes);
    is_char_boundary_start_end_of_seq(tail);
    if 0 <= i < tail.len() {
        is_char_boundary_iff_not_is_continuation_byte(bytes, base + i);
        is_char_boundary_iff_not_is_continuation_byte(tail, i);
        assert(bytes[base + i] == tail[i]);
    } else if i > tail.len() {
        if is_char_boundary(bytes, base + i) {
            lemma_boundary_in_range(bytes, base + i);
        }
        if is_char_boundary(tail, i) {
            lemma_boundary_in_range(tail, i);
        }
    }
}

/// What stands in a text stays there when another text comes before it.
proof fn lemma_between_behind(head: Seq<char>, rest: Seq<char>, start: int, end: int)
    requires
        0 <= start <= end <= encode_utf8(rest).len(),
    ensures
        text_between(
            head + rest,
            encode_utf8(head).len() + start,
            encode_utf8(head).len() + end,
        ) == text_between(rest, start, end),
{
    let base = encode_utf8(head).len() as int;
    lemma_encode_add(head, rest);
    assert(bytes_between(head + rest, base + start, base + end) =~= bytes_between(
        rest,
        start,
        end,
    ));
}

/// A token that stands in a text stays there when another text comes before it.
proof fn lemma_occurs_behind(head: Seq<char>, rest: Seq<char>, special: Seq<char>, pos: int)
    requires
        0 <= pos,
    ensures
        occurs_at(head + rest, special, encode_utf8(head).len() + pos) <==> occurs_at(
            rest,
            special,
            pos,
        ),
{
    let end = pos + encode_utf8(special).len();
    lemma_boundary_behind(head, rest, pos);
    lemma_boundary_behind(head, rest, end);
    encode_utf8_valid_utf8(rest);
    if is_text_range(rest, pos, end) {
        lemma_boundary_in_range(encode_utf8(rest), end);
        lemma_between_behind(head, rest, pos, end);
    }
}

/// The first start of a character stays where it is when a text comes before it.
proof fn lemma_char_start_behind(head: Seq<char>, rest: Seq<char>, pos: int)
    requires
        0 <= pos,
    ensures
        char_start_from(encode_utf8(head + rest), encode_utf8(head).len() + pos)
            == encode_utf8(head).len() + char_start_from(encode_utf8(rest), pos),
    decreases encode_utf8(rest).len() - pos,
{
    lemma_encode_add(head, rest);
    lemma_boundary_behind(head, rest, pos);
    if pos < encode_utf8(rest).len() {
        lemma_char_start_behind(head, rest, pos + 1);
    }
}

/// The search for special tokens finds the same in a text when another text comes before
/// it.
proof fn lemma_match_behind(v: Vocab, head: Seq<char>, rest: Seq<char>, from: int)
    requires
        finds_specials(v, head + rest),
        finds_specials(v, rest),
        specials_prefix_free(v),
        is_char_boundary(encode_utf8(rest), from),
        0 <= from,
    ensures
        ({
            let base = encode_utf8(head).len();
            match (
                first_match(v.special_regex, rest, from as nat),
                first_match(v.special_regex, head + rest, (base + from) as nat),
            ) {
                (Ok(Some((start, end))), Ok(Some((later, last)))) => later == base + start && last
                    == base + end,
                (Ok(None), Ok(None)) => true,
                _ => false,
            }
        }),
{
    let text = head + rest;
    let base = encode_utf8(head).len() as int;
    lemma_encode_add(head, rest);
    lemma_boundary_behind(head, rest, from);
    let found = first_match(v.special_regex, rest, from as nat);
    let later = first_match(v.special_regex, text, (base + from) as nat);
    assert(found is Ok && later is Ok);
    if let Ok(Some((start, end))) = found {
        assert(is_first_special(v, rest, from, start as int, end as int));
        let special = choose|special: Seq<char>| #[trigger]
            v.special_encoder.contains_key(special) && occurs_at(rest, special, start as int)
                && end == start + encode_utf8(special).len();
        lemma_occurs_behind(head, rest, special, start as int);
        lemma_occurs(rest, special, start as int);
        if let Ok(Some((a, b))) = later {
            assert(is_first_special(v, text, base + from, a as int, b as int));
            let other = choose|other: Seq<char>| #[trigger]
                v.special_encoder.contains_key(other) && occurs_at(text, other, a as int) && b == a
                    + encode_utf8(other).len();
            lemma_occurs_behind(head, rest, other, a - base);
            assert(a <= base + start) by {
                if a > base + start {
                    assert(none_between(v, text, base + from, a as int));
                }
            }
            assert(a >= base + start) by {
                if a < base + start {
                    assert(none_between(v, rest, from, start as int));
                    assert(occurs_at(rest, other, a - base));
                }
            }
            lemma_one_at(v, rest, special, other, start as int);
        } else {
            assert(none_between(v, text, base + from, encode_utf8(text).len() as int + 1));
            assert(occurs_at(text, special, base + start));
        }
    } else if let Ok(Some((a, b))) = later {
        assert(is_first_special(v, text, base + from, a as int, b as int));
        let other = choose|other: Seq<char>| #[trigger]
            v.special_encoder.contains_key(other) && occurs_at(text, other, a as int) && b == a
                + encode_utf8(other).len();
        lemma_occurs_behind(head, rest, other, a - base);
        lemma_occurs(rest, other, a - base);
        assert(none_between(v, rest, from, encode_utf8(rest).len() as int + 1));
        assert(occurs_at(rest, other, a - base));
    }
}

/// The search for allowed special tokens finds the same in a text when another text comes
/// before it.
proof fn lemma_search_behind(
    v: Vocab,
    head: Seq<char>,
    rest: Seq<char>,
    allowed: Set<Seq<char>>,
    from: int,
)
    requires
        encode_utf8(head + rest).len() <= usize::MAX,
        finds_specials(v, head + rest),
        finds_specials(v, rest),
        specials_prefix_free(v),
        is_char_boundary(encode_utf8(rest), from),
        0 <= from,
    ensures
        ({
            let base = encode_utf8(head).len();
            match (
                next_special(v.special_regex, rest, allowed, from),
                next_special(v.special_regex, head + rest, allowed, base + from),
            ) {
                (SpecialSearch::Found(start, end), SpecialSearch::Found(later, last)) => {
                    &&& later == base + start
                    &&& last == base + end
                    &&& start < end
                },
                (SpecialSearch::Absent, SpecialSearch::Absent) => true,
                _ => false,
            }
        }),
    decreases encode_utf8(rest).len() - from,
{
    let text = head + rest;
    let bytes = encode_utf8(rest);
    let base = encode_utf8(head).len() as int;
    encode_utf8_valid_utf8(rest);
    lemma_encode_add(head, rest);
    lemma_boundary_in_range(bytes, from);
    lemma_match_behind(v, head, rest, from);
    if let Ok(Some((start, end))) = first_match(v.special_regex, rest, from as nat) {
        assert(is_first_special(v, rest, from, start as int, end as int));
        let special = choose|special: Seq<char>| #[trigger]
            v.special_encoder.contains_key(special) && occurs_at(rest, special, start as int)
                && end == start + encode_utf8(special).len();
        lemma_occurs(rest, special, start as int);
        lemma_some_bytes(special);
        lemma_occurs_behind(head, rest, special, start as int);
        lemma_between_behind(head, rest, start as int, end as int);
        lemma_char_start_from(bytes, start + 1);
        lemma_char_start_behind(head, rest, start + 1);
        let again = char_start_from(bytes, start + 1);
        if !allowed.contains(special) {
            lemma_search_behind(v, head, rest, allowed, again);
        }
    }
}

/// A text is encoded alike when another text comes before it.
proof fn lemma_encoding_behind(
    v: Vocab,
    head: Seq<char>,
    rest: Seq<char>,
    allowed: Set<Seq<char>>,
    from: int,
)
    requires
        encode_utf8(head + rest).len() <= usize::MAX,
        finds_specials(v, head + rest),
        finds_specials(v, rest),
        specials_prefix_free(v),
        is_char_boundary(encode_utf8(rest), from),
        0 <= from,
    ensures
        encoding_from(v, head + rest, allowed, encode_utf8(head).len() + from) == encoding_from(
            v,
            rest,
            allowed,
            from,
        ),
    decreases encode_utf8(rest).len() - from,
{
    let bytes = encode_utf8(rest);
    encode_utf8_valid_utf8(rest);
    lemma_boundary_in_range(bytes, from);
    lemma_encode_add(head, rest);
    lemma_search_behind(v, head, rest, allowed, from);
    lemma_next_special(v.special_regex, rest, allowed, from);
    if let SpecialSearch::Found(start, end) = next_special(
        v.special_regex,
        rest,
        allowed,
        from,
    ) {
        lemma_boundary_in_range(bytes, start as int);
        lemma_between_behind(head, rest, from, start as int);
        lemma_between_behind(head, rest, start as int, end as int);
        lemma_encoding_behind(v, head, rest, allowed, end as int);
    } else {
        lemma_between_behind(head, rest, from, bytes.len() as int);
    }
}

/// Encoding parts a text at its first allowed special token: the tokens of a text `front`,
/// of the special token and of a text `back` behind each other are the regular tokens of
/// the first, the rank of the second, and the tokens of the third.
pub proof fn law_encode_parts_at_special(
    v: Vocab,
    front: Seq<char>,
    special: Seq<char>,
    back: Seq<char>,
    allowed: Set<Seq<char>>,
)
    requires
        encode_utf8(front + special + back).len() <= isize::MAX,
        searches_specials(v),
        specials_prefix_free(v),
        v.special_encoder.contains_key(special),
        allowed.contains(special),
        none_allowed_before(
            v,
            front + special + back,
            allowed,
            encode_utf8(front).len() as int,
        ),
        ordinary_encoding(v, front) is Tokens,
    ensures
        encoding(v, front + special + back, allowed) == behind(
            ordinary_encoding(v, front)->Tokens_0.push(v.special_encoder[special]),
            encoding(v, back, allowed),
        ),
{
    let head = front + special;
    let text = head + back;
    let start = encode_utf8(front).len() as int;
    let end = start + encode_utf8(special).len();
    let bytes = encode_utf8(text);
    encode_utf8_valid_utf8(text);
    encode_utf8_valid_utf8(back);
    lemma_encode_add(front, special);
    lemma_encode_add(head, back);
    is_char_boundary_start_end_of_seq(bytes);
    is_char_boundary_start_end_of_seq(encode_utf8(back));
    lemma_some_bytes(special);
    assert(text.take(front.len() as int) =~= front);
    assert(text.take(head.len() as int) =~= head);
    lemma_prefix_is_boundary(text, front.len() as int);
    lemma_prefix_is_boundary(text, head.len() as int);
    assert(bytes_between(text, 0, start) =~= encode_utf8(front));
    assert(bytes_between(text, start, end) =~= encode_utf8(special));
    encode_utf8_decode_utf8(front);
    encode_utf8_decode_utf8(special);
    lemma_search_finds(v, text, allowed, 0, special, start);
    law_encode_parts_where_found(v, text, allowed, start as usize, end as usize);
    lemma_encoding_behind(v, head, back, allowed, 0);
}

/// A token is a regular one, or an allowed special one.
pub open spec fn is_regular_or_allowed(v: Vocab, allowed: Set<Seq<char>>, token: Rank) -> bool {
    v.decoder.contains_key(token) || exists|special: Seq<char>| #[trigger]
        v.special_encoder.contains_key(special) && allowed.contains(special)
            && v.special_encoder[special] == token
}

/// The tokens of a stretch of text are regular ones, and the one behind it is special.
proof fn lemma_stretch_tokens(
    v: Vocab,
    text: Seq<char>,
    special: Option<Seq<char>>,
    allowed: Set<Seq<char>>,
)
    requires
        vocab_wf(v),
        special matches Some(special) ==> allowed.contains(special),
    ensures
        stretch_encoding(v, text, special) matches Encoding::Tokens(tokens, _) ==> forall|i: int|
            0 <= i < tokens.len() ==> is_regular_or_allowed(v, allowed, #[trigger] tokens[i]),
{
    law_ordinary_tokens_are_regular(v, text);
    if let Encoding::Tokens(tokens, _) = stretch_encoding(v, text, special) {
        let regular = ordinary_encoding(v, text)->Tokens_0;
        assert forall|i: int| 0 <= i < tokens.len() implies is_regular_or_allowed(
            v,
            allowed,
            #[trigger] tokens[i],
        ) by {
            if i < regular.len() {
                assert(tokens[i] == regular[i]);
            }
        }
    }
}

/// The tokens of a text from a position on are regular ones, or allowed special ones.
proof fn lemma_tokens_from(v: Vocab, text: Seq<char>, allowed: Set<Seq<char>>, from: int)
    requires
        vocab_wf(v),
    ensures
        encoding_from(v, text, allowed, from) matches Encoding::Tokens(tokens, _) ==> forall|
            i: int,
        |
            0 <= i < tokens.len() ==> is_regular_or_allowed(v, allowed, #[trigger] tokens[i]),
    decreases encode_utf8(text).len() - from,
{
    let len = encode_utf8(text).len() as int;
    lemma_next_special(v.special_regex, text, allowed, from);
    match next_special(v.special_regex, text, allowed, from) {
        SpecialSearch::Found(start, end) => {
            let part = text_between(text, from, start as int);
            let special = text_between(text, start as int, end as int);
            lemma_stretch_tokens(v, part, Some(special), allowed);
            if from < end <= len {
                lemma_tokens_from(v, text, allowed, end as int);
            }
            if let Encoding::Tokens(tokens, _) = encoding_from(v, text, allowed, from) {
                let front = stretch_encoding(v, part, Some(special))->Tokens_0;
                let back = encoding_from(v, text, allowed, end as int)->Tokens_0;
                assert forall|i: int| 0 <= i < tokens.len() implies is_regular_or_allowed(
                    v,
                    allowed,
                    #[trigger] tokens[i],
                ) by {
                    if i < front.len() {
                        assert(tokens[i] == front[i]);
                    } else {
                        assert(tokens[i] == back[i - front.len()]);
                    }
                }
            }
        },
        _ => {
            lemma_stretch_tokens(v, text_between(text, from, len), None, allowed);
        },
    }
}

/// The special tokens of an encoding are allowed ones: where the ranks of special tokens
/// are distinct and apart from the regular ones, each of them that occurs is the rank of
/// an allowed special token.
pub proof fn law_special_tokens_are_allowed(
    v: Vocab,
    text: Seq<char>,
    allowed: Set<Seq<char>>,
    i: int,
    special: Seq<char>,
)
    requires
        vocab_wf(v),
        ranks_apart(v),
        special_ranks_distinct(v),
        v.special_encoder.contains_key(special),
        encoding(v, text, allowed) matches Encoding::Tokens(tokens, _) && 0 <= i < tokens.len()
            && tokens[i] == v.special_encoder[special],
    ensures
        allowed.contains(special),
{
    lemma_tokens_from(v, text, allowed, 0);
    let token = encoding(v, text, allowed)->Tokens_0[i];
    assert(is_regular_or_allowed(v, allowed, token));
    let other = choose|other: Seq<char>| #[trigger]
        v.special_encoder.contains_key(other) && allowed.contains(other)
            && v.special_encoder[other] == token;
    assert(v.special_encoder[special] == v.special_encoder[other]);
}

} // verus!
