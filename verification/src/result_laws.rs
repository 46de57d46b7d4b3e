//! What the results of a tokeniser say, and what a tokeniser holds.
use fancy_regex::Regex;
use vstd::prelude::*;
use vstd::utf8::*;

use crate::bpe::Rank;
use crate::core_bpe::{
    CoreBPE, is_built, lists_special, lists_tokens, ranks_of_pairs, special_ranks_of_pairs,
};
use crate::data_gym::DataGymError;
use crate::encode::{found_view, is_encoding, text_view};
use crate::error::{EncodeError, PatternError};
use crate::order::{byte_strings, lex_le, ranked_tokens};
use crate::json::{Listing, can_visit, is_visited, refuses, takes, takes_first};
use crate::limits::is_special;
use crate::pattern::{alternatives, compiled, escaped, items_view};
use crate::ranks::{byte_list, comma_separated};
use crate::sequence_set::sequences;
use crate::special_laws::searches_specials;
use crate::text::{decimal, texts};
use crate::unstable::is_unstable;
use crate::vocab::{Encoding, Vocab, ranks_distinct, vocab_wf};

verus! {

/// A result of encoding holds the tokens and the number of those of the last piece, or the
/// message of the error; there is none exactly where there is no answer.
pub proof fn law_result_is_encoding(
    result: Option<Result<(Vec<Rank>, usize), EncodeError>>,
    expected: Encoding,
)
    ensures
        is_encoding(result, expected) <==> (match result {
            Some(Ok((tokens, last))) => expected is Tokens && expected->Tokens_0 == tokens@
                && expected->Tokens_1 == last,
            Some(Err(error)) => expected is Fails && expected->Fails_0 == error.message@,
            None => expected is Undefined,
        }),
{
}

/// A result of encoding a text that may go on holds the stable tokens, and each completion
/// once and nothing else; there is none exactly where there is no answer.
pub proof fn law_result_is_unstable(
    result: Option<(Vec<Rank>, Vec<Vec<Rank>>)>,
    expected: Option<(Seq<Rank>, Set<Seq<Rank>>)>,
)
    ensures
        is_unstable(result, expected) ==> (result is None <==> expected is None),
        is_unstable(result, expected) && result is Some ==> {
            let (tokens, list) = result->0;
            let (stable, completions) = expected->0;
            &&& tokens@ == stable
            &&& forall|i: int| 0 <= i < list@.len() ==> completions.contains(#[trigger] list@[i]@)
            &&& forall|completion: Seq<Rank>| #[trigger]
                completions.contains(completion) ==> exists|i: int|
                    0 <= i < list@.len() && #[trigger] list@[i]@ == completion
            &&& forall|i: int, j: int|
                0 <= i < j < list@.len() ==> #[trigger] list@[i]@ != #[trigger] list@[j]@
        },
{
    if is_unstable(result, expected) && result is Some {
        let (_, list) = result->0;
        let (_, completions) = expected->0;
        let all = sequences(list@);
        assert forall|i: int| 0 <= i < list@.len() implies completions.contains(
            #[trigger] list@[i]@,
        ) by {
            assert(all[i] == list@[i]@);
            assert(all.contains(all[i]));
        }
        assert forall|completion: Seq<Rank>| #[trigger] completions.contains(
            completion,
        ) implies exists|i: int|
            0 <= i < list@.len() && #[trigger] list@[i]@ == completion by {
            assert(all.to_set().contains(completion));
            let i = choose|i: int| 0 <= i < all.len() && all[i] == completion;
            assert(list@[i]@ == completion);
        }
        assert forall|i: int, j: int| 0 <= i < j < list@.len() implies #[trigger] list@[i]@
            != #[trigger] list@[j]@ by {
            assert(all[i] != all[j]);
        }
    }
}

/// Lists are taken by what they hold, item by item.
pub proof fn law_lists_by_items(
    strings: Seq<Vec<u8>>,
    ranked: Seq<(Vec<u8>, Rank)>,
    list: Seq<&str>,
    items: Seq<Result<(usize, usize), String>>,
)
    ensures
        byte_strings(strings).len() == strings.len(),
        forall|i: int|
            0 <= i < strings.len() ==> #[trigger] byte_strings(strings)[i] == strings[i]@,
        ranked_tokens(ranked).len() == ranked.len(),
        forall|i: int|
            0 <= i < ranked.len() ==> #[trigger] ranked_tokens(ranked)[i] == (
                ranked[i].0@,
                ranked[i].1,
            ),
        texts(list).len() == list.len(),
        forall|i: int| 0 <= i < list.len() ==> #[trigger] texts(list)[i] == list[i]@,
        items_view(items).len() == items.len(),
        forall|i: int|
            0 <= i < items.len() ==> #[trigger] items_view(items)[i] == (match items[i] {
                Ok(range) => Ok::<(usize, usize), Seq<char>>(range),
                Err(message) => Err::<(usize, usize), Seq<char>>(message@),
            }),
{
}

/// What was found, a text and an error are taken by what they hold.
pub proof fn law_values_by_contents(
    found: Result<Option<(usize, usize)>, String>,
    text: Option<&str>,
    error: DataGymError,
)
    ensures
        found_view(found) == (match found {
            Ok(range) => Ok::<Option<(usize, usize)>, Seq<char>>(range),
            Err(message) => Err::<Option<(usize, usize)>, Seq<char>>(message@),
        }),
        text is None <==> text_view(text) is None,
        text matches Some(text) ==> text_view(Some(text)) == Some(text@),
        error@.message == error.message@,
        error@.is_mismatch == error.is_mismatch,
{
}

/// A tokeniser that is built holds the given tokens and the compiled pattern; it is refused
/// where the pattern is, with the message.
pub proof fn law_built_holds_tokens(
    bpe: Result<CoreBPE, PatternError>,
    encoder: Map<Seq<u8>, Rank>,
    special_encoder: Map<Seq<char>, Rank>,
    pattern: Seq<char>,
)
    requires
        is_built(bpe, encoder, special_encoder, pattern),
    ensures
        bpe matches Ok(bpe) ==> {
            &&& bpe.wf()
            &&& bpe.vocab().encoder == encoder
            &&& bpe.vocab().special_encoder == special_encoder
            &&& compiled(pattern) is Ok
            &&& bpe.vocab().regex == compiled(pattern)->Ok_0
            &&& searches_specials(bpe.vocab())
            &&& exists|order: Seq<Seq<char>>| #[trigger]
                lists_special(order, special_encoder) && compiled(alternatives(order)) == Ok::<
                    Regex,
                    Seq<char>,
                >(bpe.vocab().special_regex)
        },
        compiled(pattern) matches Err(message) ==> bpe is Err && bpe->Err_0.message@ == message,
        compiled(pattern) is Ok && bpe is Err ==> exists|order: Seq<Seq<char>>| #[trigger]
            lists_special(order, special_encoder) && compiled(alternatives(order)) == Err::<
                Regex,
                Seq<char>,
            >(bpe->Err_0.message@),
{
}

/// The decoders of a tokeniser undo its encoders: each regular token has its own bytes, and
/// no rank but those of the tokens decodes to anything.
pub proof fn law_decoders_undo_encoders(v: Vocab)
    requires
        vocab_wf(v),
    ensures
        forall|bytes: Seq<u8>| #[trigger]
            v.encoder.contains_key(bytes) ==> v.decoder.contains_key(v.encoder[bytes])
                && v.decoder[v.encoder[bytes]] == bytes,
        forall|rank: Rank| #[trigger]
            v.decoder.contains_key(rank) ==> v.encoder.contains_key(v.decoder[rank])
                && v.encoder[v.decoder[rank]] == rank,
        forall|text: Seq<char>| #[trigger]
            v.special_encoder.contains_key(text) ==> v.special_decoder.contains_key(
                v.special_encoder[text],
            ),
        forall|rank: Rank| #[trigger]
            v.special_decoder.contains_key(rank) ==> exists|text: Seq<char>| #[trigger]
                v.special_encoder.contains_key(text) && v.special_encoder[text] == rank
                    && v.special_decoder[rank] == encode_utf8(text),
{
}

/// A list of regular tokens gives each of them the last rank that stands in it, and no
/// others one.
pub proof fn law_last_rank_counts(pairs: Seq<(Vec<u8>, Rank)>)
    ensures
        forall|bytes: Seq<u8>| #[trigger]
            ranks_of_pairs(pairs).contains_key(bytes) <==> exists|i: int|
                0 <= i < pairs.len() && (#[trigger] pairs[i]).0@ == bytes,
        forall|i: int|
            0 <= i < pairs.len() && (forall|k: int|
                i < k < pairs.len() ==> (#[trigger] pairs[k]).0@ != pairs[i].0@) ==> ranks_of_pairs(
                pairs,
            )[(#[trigger] pairs[i]).0@] == pairs[i].1,
    decreases pairs.len(),
{
    if pairs.len() > 0 {
        let before = pairs.drop_last();
        let last = pairs.len() - 1;
        law_last_rank_counts(before);
        assert forall|bytes: Seq<u8>| #[trigger]
            ranks_of_pairs(pairs).contains_key(bytes) <==> exists|i: int|
                0 <= i < pairs.len() && (#[trigger] pairs[i]).0@ == bytes by {
            if ranks_of_pairs(before).contains_key(bytes) {
                let i = choose|i: int| 0 <= i < before.len() && (#[trigger] before[i]).0@ == bytes;
                assert(pairs[i].0@ == bytes);
            }
            if bytes == pairs.last().0@ {
                assert(pairs[last].0@ == bytes);
            }
            if exists|i: int| 0 <= i < pairs.len() && (#[trigger] pairs[i]).0@ == bytes {
                let i = choose|i: int| 0 <= i < pairs.len() && (#[trigger] pairs[i]).0@ == bytes;
                if i < last {
                    assert(before[i].0@ == bytes);
                }
            }
        }
        assert forall|i: int|
            0 <= i < pairs.len() && (forall|k: int|
                i < k < pairs.len() ==> (#[trigger] pairs[k]).0@ != pairs[i].0@) implies
            ranks_of_pairs(pairs)[(#[trigger] pairs[i]).0@] == pairs[i].1 by {
            if i < last {
                assert(pairs[last].0@ != pairs[i].0@);
                assert(before[i] == pairs[i]);
                assert forall|k: int| i < k < before.len() implies (#[trigger] before[k]).0@
                    != before[i].0@ by {
                    assert(before[k] == pairs[k]);
                }
            }
        }
    }
}

/// A list of special tokens gives each of them the last rank that stands in it, and no
/// others one.
pub proof fn law_last_special_rank_counts(pairs: Seq<(String, Rank)>)
    ensures
        forall|text: Seq<char>| #[trigger]
            special_ranks_of_pairs(pairs).contains_key(text) <==> exists|i: int|
                0 <= i < pairs.len() && (#[trigger] pairs[i]).0@ == text,
        forall|i: int|
            0 <= i < pairs.len() && (forall|k: int|
                i < k < pairs.len() ==> (#[trigger] pairs[k]).0@ != pairs[i].0@)
                ==> special_ranks_of_pairs(pairs)[(#[trigger] pairs[i]).0@] == pairs[i].1,
    decreases pairs.len(),
{
    if pairs.len() > 0 {
        let before = pairs.drop_last();
        let last = pairs.len() - 1;
        law_last_special_rank_counts(before);
        assert forall|text: Seq<char>| #[trigger]
            special_ranks_of_pairs(pairs).contains_key(text) <==> exists|i: int|
                0 <= i < pairs.len() && (#[trigger] pairs[i]).0@ == text by {
            if special_ranks_of_pairs(before).contains_key(text) {
                let i = choose|i: int| 0 <= i < before.len() && (#[trigger] before[i]).0@ == text;
                assert(pairs[i].0@ == text);
            }
            if text == pairs.last().0@ {
                assert(pairs[last].0@ == text);
            }
            if exists|i: int| 0 <= i < pairs.len() && (#[trigger] pairs[i]).0@ == text {
                let i = choose|i: int| 0 <= i < pairs.len() && (#[trigger] pairs[i]).0@ == text;
                if i < last {
                    assert(before[i].0@ == text);
                }
            }
        }
        assert forall|i: int|
            0 <= i < pairs.len() && (forall|k: int|
                i < k < pairs.len() ==> (#[trigger] pairs[k]).0@ != pairs[i].0@) implies
            special_ranks_of_pairs(pairs)[(#[trigger] pairs[i]).0@] == pairs[i].1 by {
            if i < last {
                assert(pairs[last].0@ != pairs[i].0@);
                assert(before[i] == pairs[i]);
                assert forall|k: int| i < k < before.len() implies (#[trigger] before[k]).0@
                    != before[i].0@ by {
                    assert(before[k] == pairs[k]);
                }
            }
        }
    }
}

/// `a` stands before `b` in a dictionary: it is the start of `b`, or has the lesser byte
/// where they first differ.
pub open spec fn comes_before(a: Seq<u8>, b: Seq<u8>) -> bool {
    exists|k: int|
        0 <= k <= a.len() && k < b.len() && #[trigger] a.take(k) == b.take(k) && (k == a.len()
            || a[k] < b[k])
}

/// What the order of a dictionary says of two byte strings.
proof fn lemma_comes_before(a: Seq<u8>, b: Seq<u8>)
    requires
        lex_le(a, b),
        a != b,
    ensures
        comes_before(a, b),
    decreases a.len(),
{
    if a.len() == 0 {
        if b.len() == 0 {
            assert(a =~= b);
        }
        assert(a.take(0) =~= b.take(0));
    } else if a[0] != b[0] {
        assert(a.take(0) =~= b.take(0));
    } else {
        let rest = a.skip(1);
        let other = b.skip(1);
        if rest == other {
            assert(a =~= seq![a[0]] + rest);
            assert(b =~= seq![a[0]] + other);
        }
        lemma_comes_before(rest, other);
        let k = choose|k: int|
            0 <= k <= rest.len() && k < other.len() && #[trigger] rest.take(k) == other.take(k) && (
            k == rest.len() || rest[k] < other[k]);
        assert(a.take(k + 1) =~= seq![a[0]] + rest.take(k));
        assert(b.take(k + 1) =~= seq![a[0]] + other.take(k));
    }
}

/// The list of the regular tokens holds each of them once, in the order of a dictionary.
pub proof fn law_tokens_in_order(list: Seq<Seq<u8>>, encoder: Map<Seq<u8>, Rank>)
    requires
        lists_tokens(list, encoder),
    ensures
        forall|bytes: Seq<u8>| #[trigger]
            encoder.contains_key(bytes) <==> exists|i: int|
                0 <= i < list.len() && #[trigger] list[i] == bytes,
        forall|i: int, j: int|
            0 <= i < j < list.len() ==> comes_before(#[trigger] list[i], #[trigger] list[j]),
{
    assert forall|bytes: Seq<u8>| #[trigger] encoder.contains_key(bytes) <==> exists|i: int|
        0 <= i < list.len() && #[trigger] list[i] == bytes by {
        assert(list.contains(bytes) <==> encoder.contains_key(bytes));
    }
    assert forall|i: int, j: int| 0 <= i < j < list.len() implies comes_before(
        #[trigger] list[i],
        #[trigger] list[j],
    ) by {
        lemma_comes_before(list[i], list[j]);
    }
}

/// The list of the special tokens holds each of them once.
pub proof fn law_specials_are_listed(list: Seq<Seq<char>>, encoder: Map<Seq<char>, Rank>)
    requires
        lists_special(list, encoder),
    ensures
        forall|text: Seq<char>| #[trigger]
            encoder.contains_key(text) <==> exists|i: int|
                0 <= i < list.len() && #[trigger] list[i] == text,
        forall|i: int, j: int|
            0 <= i < j < list.len() ==> #[trigger] list[i] != #[trigger] list[j],
{
    assert forall|text: Seq<char>| #[trigger] encoder.contains_key(text) <==> exists|i: int|
        0 <= i < list.len() && #[trigger] list[i] == text by {
        assert(list.contains(text) <==> encoder.contains_key(text));
    }
}

/// Ranks are distinct where no two tokens share one.
pub proof fn law_distinct_ranks_are_not_shared(encoder: Map<Seq<u8>, Rank>)
    ensures
        ranks_distinct(encoder) <==> forall|a: Seq<u8>, b: Seq<u8>|
            encoder.contains_key(a) && encoder.contains_key(b) && a != b ==> #[trigger] encoder[a]
                != #[trigger] encoder[b],
{
}

/// A special character gets a backslash before it, and any other stays as it is; the
/// escaped texts of a list have a bar between them.
pub proof fn law_special_tokens_are_alternatives(
    order: Seq<Seq<char>>,
    text: Seq<char>,
    c: char,
)
    ensures
        escaped(Seq::empty()) == Seq::<char>::empty(),
        seq![
            '\\', '.', '+', '*', '?', '(', ')', '|', '[', ']', '{', '}', '^', '$', '#',
        ].contains(c) ==> escaped(text.push(c)) == escaped(text) + seq!['\\', c],
        !seq![
            '\\', '.', '+', '*', '?', '(', ')', '|', '[', ']', '{', '}', '^', '$', '#',
        ].contains(c) ==> escaped(text.push(c)) == escaped(text) + seq![c],
        alternatives(Seq::empty()) == Seq::<char>::empty(),
        alternatives(seq![text]) == escaped(text),
        order.len() > 0 ==> alternatives(order.push(text)) == alternatives(order) + "|"@ + escaped(
            text,
        ),
{
    let specials = seq![
        '\\', '.', '+', '*', '?', '(', ')', '|', '[', ']', '{', '}', '^', '$', '#',
    ];
    assert(text.push(c).drop_last() =~= text);
    assert(order.push(text).drop_last() =~= order);
    assert(specials.contains(c) <==> is_special(c)) by {
        assert(specials[0] == '\\' && specials[1] == '.' && specials[2] == '+' && specials[3]
            == '*' && specials[4] == '?' && specials[5] == '(' && specials[6] == ')'
            && specials[7] == '|' && specials[8] == '[' && specials[9] == ']' && specials[10]
            == '{' && specials[11] == '}' && specials[12] == '^' && specials[13] == '$'
            && specials[14] == '#');
    }
    if is_special(c) {
        assert(escaped(text).push('\\').push(c) =~= escaped(text) + seq!['\\', c]);
    } else {
        assert(escaped(text).push(c) =~= escaped(text) + seq![c]);
    }
}

/// A visitor can be handed the entries of a file, where it takes each of them.
pub proof fn law_visitor_is_handed_entries<V: FnMut(&[u8], Rank) -> Result<(), DataGymError>>(
    visit: V,
    entries: Seq<(Seq<u8>, Rank)>,
)
    requires
        forall|i: int, token: &[u8]|
            0 <= i < entries.len() && token@ == (#[trigger] entries[i]).0
                ==> #[trigger] call_requires(visit, (token, entries[i].1)),
    ensures
        can_visit(visit, entries),
{
}

/// The answer of a visitor to an entry that it is handed.
pub open spec fn answers<V: FnMut(&[u8], Rank) -> Result<(), DataGymError>>(
    visit: V,
    entry: (Seq<u8>, Rank),
    answer: Result<(), DataGymError>,
) -> bool {
    exists|token: &[u8]| token@ == entry.0 && #[trigger] call_ensures(
        visit,
        (token, entry.1),
        answer,
    )
}

/// A visitor takes an entry that it is handed.
pub open spec fn is_taken<V: FnMut(&[u8], Rank) -> Result<(), DataGymError>>(
    visit: V,
    entry: (Seq<u8>, Rank),
) -> bool {
    exists|answer: Result<(), DataGymError>|
        answer is Ok && #[trigger] answers(visit, entry, answer)
}

/// A visitor takes the first `count` entries.
pub open spec fn answers_well<V: FnMut(&[u8], Rank) -> Result<(), DataGymError>>(
    visit: V,
    entries: Seq<(Seq<u8>, Rank)>,
    count: int,
) -> bool {
    forall|i: int| 0 <= i < count ==> is_taken(visit, #[trigger] entries[i])
}

/// Handing the entries of a file to a visitor ends well where the file has no fault and the
/// visitor takes every entry. An error is that of the file, behind entries that are all
/// taken, or the one that the visitor gives for an entry, behind entries that are taken.
pub proof fn law_visit_ends_with_first_error<V: FnMut(&[u8], Rank) -> Result<(), DataGymError>>(
    visit: V,
    listed: Listing,
    result: Result<(), DataGymError>,
)
    requires
        is_visited(visit, listed, result),
    ensures
        result is Ok ==> listed.fault is None && answers_well(
            visit,
            listed.entries,
            listed.entries.len() as int,
        ),
        result matches Err(error) ==> {
            ||| listed.fault == Some(error@) && answers_well(
                visit,
                listed.entries,
                listed.entries.len() as int,
            )
            ||| exists|count: int|
                0 <= count < listed.entries.len() && answers_well(visit, listed.entries, count)
                    && answers(visit, #[trigger] listed.entries[count], result)
        },
{
    let entries = listed.entries;
    assert forall|count: int| #[trigger] takes_first(visit, entries, count) && 0 <= count
        <= entries.len() implies answers_well(visit, entries, count) by {
        assert forall|i: int| 0 <= i < count implies is_taken(visit, #[trigger] entries[i]) by {
            assert(takes(visit, entries[i]));
            let (token, answer) = choose|token: &[u8], answer: Result<(), DataGymError>|
                token@ == entries[i].0 && answer is Ok && #[trigger] call_ensures(
                    visit,
                    (token, entries[i].1),
                    answer,
                );
            assert(answers(visit, entries[i], answer));
        }
    }
    if let Err(error) = result {
        if !(listed.fault == Some(error@) && takes_first(visit, entries, entries.len() as int)) {
            let count = choose|count: int|
                0 <= count < entries.len() && #[trigger] takes_first(visit, entries, count)
                    && refuses(visit, entries[count], error);
            assert(answers(visit, entries[count], result));
        }
    }
}

/// The number that decimal digits are read as.
pub open spec fn read_number(digits: Seq<char>) -> int
    decreases digits.len(),
{
    if digits.len() == 0 {
        0
    } else {
        read_number(digits.drop_last()) * 10 + (digits.last() as int - '0' as int)
    }
}

/// A number is written in decimal digits that are read as the number, with no zero before
/// them.
pub proof fn law_decimal_is_read_as_number(n: nat)
    ensures
        read_number(decimal(n)) == n,
        decimal(n).len() > 0,
        forall|i: int| 0 <= i < decimal(n).len() ==> '0' <= #[trigger] decimal(n)[i] <= '9',
        decimal(n).len() > 1 ==> decimal(n)[0] != '0',
        n > 0 ==> decimal(n)[0] != '0',
    decreases n,
{
    if n < 10 {
        assert(decimal(n).drop_last() =~= Seq::<char>::empty());
        assert(read_number(Seq::<char>::empty()) == 0);
    } else {
        law_decimal_is_read_as_number(n / 10);
        assert(decimal(n).drop_last() =~= decimal(n / 10));
        assert(decimal(n)[0] == decimal(n / 10)[0]);
    }
}

/// Bytes are written as numbers with commas between them, in square brackets.
pub proof fn law_bytes_are_written_as_list(bytes: Seq<u8>, byte: u8)
    ensures
        byte_list(Seq::empty()) == "["@ + Seq::<char>::empty() + "]"@,
        byte_list(seq![byte]) == "["@ + decimal(byte as nat) + "]"@,
        bytes.len() > 0 ==> comma_separated(bytes.push(byte)) == comma_separated(bytes) + ", "@
            + decimal(byte as nat),
        byte_list(bytes) == "["@ + comma_separated(bytes) + "]"@,
{
    assert(bytes.push(byte).drop_last() =~= bytes);
}

} // verus!
