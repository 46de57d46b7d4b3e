//! What holds of the ranks of the vocabulary of GPT-2 and of the two files that give them.
use vstd::prelude::*;
use vstd::set_lib::*;

use crate::bpe::Rank;
use crate::data_gym::Fault;
use crate::json::listing;
use crate::ranks::{
    Check, all_tokens, check_entries, check_entry, is_not_mergeable, lemma_places, listed_ranks,
    mergeable_ranks, places, settled, unchecked,
};

verus! {

/// The ranks of the tokens that are listed so far are the given ones.
pub(crate) open spec fn holds_given(
    tokens: Seq<Seq<u8>>,
    check: Check,
    given: Map<Seq<u8>, Rank>,
) -> bool {
    &&& check.ranks.len() == tokens.len()
    &&& check.listed.finite()
    &&& forall|token: Seq<u8>| #[trigger]
        check.listed.contains(token) ==> places(tokens).contains_key(token)
            && check.ranks[places(tokens)[token] as int] == given[token]
}

/// What a check comes to of entries that give each token one rank.
pub(crate) proof fn lemma_check_entries(
    tokens: Seq<Seq<u8>>,
    clobber: bool,
    check: Check,
    entries: Seq<(Seq<u8>, Rank)>,
    given: Map<Seq<u8>, Rank>,
    end: Check,
)
    requires
        tokens.len() <= 0x1_0000_0000,
        holds_given(tokens, check, given),
        forall|i: int| 0 <= i < entries.len() ==> (#[trigger] entries[i]).1 == given[entries[i].0],
        check_entries(places(tokens), clobber, check, entries) == Ok::<Check, Fault>(end),
    ensures
        holds_given(tokens, end, given),
        check.listed.subset_of(end.listed),
        forall|token: Seq<u8>| #[trigger]
            end.listed.contains(token) ==> check.listed.contains(token) || exists|i: int|
                0 <= i < entries.len() && (#[trigger] entries[i]).0 == token,
        forall|i: int|
            0 <= i < entries.len() && !is_not_mergeable((#[trigger] entries[i]).0)
                ==> end.listed.contains(entries[i].0),
        forall|place: int|
            0 <= place < tokens.len() && !(clobber && tokens[place].len() == 1)
                ==> #[trigger] end.ranks[place] == check.ranks[place],
    decreases entries.len(),
{
    let index = places(tokens);
    lemma_places(tokens);
    if entries.len() > 0 {
        let (token, rank) = entries[0];
        let next = check_entry(index, clobber, check, entries[0])->Ok_0;
        let rest = entries.skip(1);
        assert(rank == given[token]);
        assert forall|other: Seq<u8>| #[trigger] next.listed.contains(other) implies
            index.contains_key(other) && next.ranks[index[other] as int] == given[other] by {
            if other != token {
                assert(check.listed.contains(other));
                assert(tokens[index[other] as int] == other);
                if index.contains_key(token) {
                    assert(tokens[index[token] as int] == token);
                }
            } else if is_not_mergeable(token) {
                assert(check.listed.contains(other));
            }
        }
        assert(forall|i: int| 0 <= i < rest.len() ==> #[trigger] rest[i] == entries[i + 1]);
        lemma_check_entries(tokens, clobber, next, rest, given, end);
        assert forall|other: Seq<u8>| #[trigger] end.listed.contains(other) implies
            check.listed.contains(other) || exists|i: int|
            0 <= i < entries.len() && (#[trigger] entries[i]).0 == other by {
            if !check.listed.contains(other) && other != token {
                let i = choose|i: int| 0 <= i < rest.len() && (#[trigger] rest[i]).0 == other;
                assert(entries[i + 1].0 == other);
            } else if other == token {
                assert(entries[0].0 == other);
            }
        }
        assert forall|i: int|
            0 <= i < entries.len() && !is_not_mergeable((#[trigger] entries[i]).0) implies
            end.listed.contains(entries[i].0) by {
            if i > 0 {
                assert(rest[i - 1] == entries[i]);
            } else {
                assert(next.listed.contains(token));
            }
        }
    }
}

/// The two files agree, where ranks come of them: `encoder.json` is well formed, it lists
/// every token, every entry there is a token or special, and the rank of a token is the
/// one that is listed for it.
pub proof fn law_files_agree(
    map: Map<char, u8>,
    singles: Seq<u8>,
    vocab_bpe: Seq<char>,
    encoder_json: Seq<u8>,
    clobber: bool,
)
    requires
        mergeable_ranks(map, singles, vocab_bpe, encoder_json, clobber) is Ok,
    ensures
        ({
            let ranked = mergeable_ranks(map, singles, vocab_bpe, encoder_json, clobber)->Ok_0;
            let tokens = all_tokens(map, singles, vocab_bpe)->Ok_0;
            let listed = listing(encoder_json, map);
            &&& all_tokens(map, singles, vocab_bpe) is Ok
            &&& ranked.len() == tokens.len()
            &&& listed.fault is None
            &&& forall|i: int|
                0 <= i < tokens.len() ==> exists|j: int|
                    0 <= j < listed.entries.len() && (#[trigger] listed.entries[j]).0
                        == #[trigger] tokens[i]
            &&& forall|j: int|
                0 <= j < listed.entries.len() && !is_not_mergeable(
                    (#[trigger] listed.entries[j]).0,
                ) ==> places(tokens).contains_key(listed.entries[j].0)
                    && ranked[places(tokens)[listed.entries[j].0] as int] == (
                    listed.entries[j].0,
                    listed_ranks(listed.entries)[listed.entries[j].0],
                )
        }),
{
    let tokens = all_tokens(map, singles, vocab_bpe)->Ok_0;
    let index = places(tokens);
    let listed = listing(encoder_json, map);
    let given = listed_ranks(listed.entries);
    let start = unchecked(tokens.len());
    let entries = settled(listed.entries);
    let end = check_entries(index, clobber, start, entries)->Ok_0;
    lemma_places(tokens);
    lemma_check_entries(tokens, clobber, start, entries, given, end);
    assert(end.listed.subset_of(index.dom()));
    lemma_subset_equality(end.listed, index.dom());
    assert forall|i: int| 0 <= i < tokens.len() implies exists|j: int|
        0 <= j < listed.entries.len() && (#[trigger] listed.entries[j]).0
            == #[trigger] tokens[i] by {
        lemma_listed_in_places(tokens, i);
        assert(end.listed.contains(tokens[i]));
        let j = choose|j: int| 0 <= j < entries.len() && (#[trigger] entries[j]).0 == tokens[i];
        assert(listed.entries[j].0 == tokens[i]);
    }
    assert forall|j: int|
        0 <= j < listed.entries.len() && !is_not_mergeable(
            (#[trigger] listed.entries[j]).0,
        ) implies index.contains_key(listed.entries[j].0)
        && end.ranks[index[listed.entries[j].0] as int] == given[listed.entries[j].0] by {
        assert(entries[j].0 == listed.entries[j].0);
        assert(end.listed.contains(entries[j].0));
    }
}

/// The rank of a token is its place, unless it is one of one byte and these are taken from
/// `encoder.json`.
pub proof fn law_rank_is_place(
    map: Map<char, u8>,
    singles: Seq<u8>,
    vocab_bpe: Seq<char>,
    encoder_json: Seq<u8>,
    clobber: bool,
    place: int,
)
    requires
        mergeable_ranks(map, singles, vocab_bpe, encoder_json, clobber) is Ok,
        0 <= place < mergeable_ranks(map, singles, vocab_bpe, encoder_json, clobber)->Ok_0.len(),
    ensures
        ({
            let ranked = mergeable_ranks(map, singles, vocab_bpe, encoder_json, clobber)->Ok_0;
            clobber && ranked[place].0.len() == 1 || ranked[place].1 == place
        }),
{
    let tokens = all_tokens(map, singles, vocab_bpe)->Ok_0;
    let listed = listing(encoder_json, map);
    let start = unchecked(tokens.len());
    let entries = settled(listed.entries);
    let end = check_entries(places(tokens), clobber, start, entries)->Ok_0;
    lemma_check_entries(tokens, clobber, start, entries, listed_ranks(listed.entries), end);
    assert(end.ranks[place] == start.ranks[place] || clobber && tokens[place].len() == 1);
}

/// Every token of a list has a place.
proof fn lemma_listed_in_places(tokens: Seq<Seq<u8>>, i: int)
    requires
        0 <= i < tokens.len(),
    ensures
        places(tokens).contains_key(tokens[i]),
    decreases tokens.len(),
{
    if i < tokens.len() - 1 {
        lemma_listed_in_places(tokens.drop_last(), i);
    }
}

/// `encoder.json` lists every token with its place, and besides only special tokens.
pub open spec fn lists_places(tokens: Seq<Seq<u8>>, entries: Seq<(Seq<u8>, Rank)>) -> bool {
    &&& forall|i: int|
        0 <= i < tokens.len() ==> !is_not_mergeable(#[trigger] tokens[i]) && exists|j: int|
            0 <= j < entries.len() && (#[trigger] entries[j]).0 == tokens[i]
    &&& forall|j: int|
        0 <= j < entries.len() && !is_not_mergeable((#[trigger] entries[j]).0) ==> places(
            tokens,
        ).contains_key(entries[j].0) && places(tokens)[entries[j].0]
            == listed_ranks(entries)[entries[j].0]
}

/// Entries that agree with the tokens pass the check.
proof fn lemma_check_accepts(
    tokens: Seq<Seq<u8>>,
    check: Check,
    entries: Seq<(Seq<u8>, Rank)>,
) -> (end: Check)
    requires
        tokens.len() <= 0x1_0000_0000,
        check.ranks == unchecked(tokens.len()).ranks,
        check.listed.finite(),
        forall|j: int|
            0 <= j < entries.len() && !is_not_mergeable((#[trigger] entries[j]).0) ==> places(
                tokens,
            ).contains_key(entries[j].0) && places(tokens)[entries[j].0] == entries[j].1,
    ensures
        check_entries(places(tokens), false, check, entries) == Ok::<Check, Fault>(end),
        end.ranks == check.ranks,
        end.listed.finite(),
        check.listed.subset_of(end.listed),
        forall|token: Seq<u8>| #[trigger]
            end.listed.contains(token) ==> check.listed.contains(token) || places(
                tokens,
            ).contains_key(token),
        forall|j: int|
            0 <= j < entries.len() && !is_not_mergeable((#[trigger] entries[j]).0)
                ==> end.listed.contains(entries[j].0),
    decreases entries.len(),
{
    lemma_places(tokens);
    if entries.len() == 0 {
        check
    } else {
        let rest = entries.skip(1);
        let next = check_entry(places(tokens), false, check, entries[0])->Ok_0;
        assert(forall|j: int| 0 <= j < rest.len() ==> #[trigger] rest[j] == entries[j + 1]);
        let end = lemma_check_accepts(tokens, next, rest);
        assert forall|j: int|
            0 <= j < entries.len() && !is_not_mergeable(
                (#[trigger] entries[j]).0,
            ) implies end.listed.contains(entries[j].0) by {
            if j > 0 {
                assert(rest[j - 1] == entries[j]);
            } else {
                assert(next.listed.contains(entries[0].0));
            }
        }
        end
    }
}

/// Files that agree give the ranks: where `encoder.json` lists every token with its place,
/// the rank of each token is its place.
pub proof fn law_agreeing_files_give_ranks(
    map: Map<char, u8>,
    singles: Seq<u8>,
    vocab_bpe: Seq<char>,
    encoder_json: Seq<u8>,
)
    requires
        all_tokens(map, singles, vocab_bpe) is Ok,
        all_tokens(map, singles, vocab_bpe)->Ok_0.len() <= 0x1_0000_0000,
        listing(encoder_json, map).fault is None,
        lists_places(
            all_tokens(map, singles, vocab_bpe)->Ok_0,
            listing(encoder_json, map).entries,
        ),
    ensures
        ({
            let tokens = all_tokens(map, singles, vocab_bpe)->Ok_0;
            mergeable_ranks(map, singles, vocab_bpe, encoder_json, false) == Ok::<
                Seq<(Seq<u8>, Rank)>,
                Fault,
            >(Seq::new(tokens.len(), |i: int| (tokens[i], i as Rank)))
        }),
{
    let tokens = all_tokens(map, singles, vocab_bpe)->Ok_0;
    let index = places(tokens);
    let listed = listing(encoder_json, map).entries;
    let entries = settled(listed);
    let start = unchecked(tokens.len());
    assert forall|j: int|
        0 <= j < entries.len() && !is_not_mergeable(
            (#[trigger] entries[j]).0,
        ) implies index.contains_key(entries[j].0) && index[entries[j].0] == entries[j].1 by {
        assert(listed[j].0 == entries[j].0);
    }
    let end = lemma_check_accepts(tokens, start, entries);
    lemma_places(tokens);
    assert forall|token: Seq<u8>| index.dom().contains(token) implies end.listed.contains(
        token,
    ) by {
        let i = index[token] as int;
        assert(tokens[i] == token);
        let j = choose|j: int| 0 <= j < listed.len() && (#[trigger] listed[j]).0 == tokens[i];
        assert(entries[j].0 == token);
    }
    assert(end.listed =~= index.dom());
    let ranks = end.ranks;
    assert(Seq::new(tokens.len(), |i: int| (tokens[i], ranks[i])) =~= Seq::new(
        tokens.len(),
        |i: int| (tokens[i], i as Rank),
    ));
}

/// A file that is not well formed is told as such, whatever it lists before: it is no
/// mismatch with the other file.
pub proof fn law_malformed_is_no_mismatch(
    map: Map<char, u8>,
    singles: Seq<u8>,
    vocab_bpe: Seq<char>,
    encoder_json: Seq<u8>,
    clobber: bool,
)
    requires
        all_tokens(map, singles, vocab_bpe) is Ok,
        all_tokens(map, singles, vocab_bpe)->Ok_0.len() <= 0x1_0000_0000,
        listing(encoder_json, map).fault is Some,
    ensures
        mergeable_ranks(map, singles, vocab_bpe, encoder_json, clobber) == Err::<
            Seq<(Seq<u8>, Rank)>,
            Fault,
        >(listing(encoder_json, map).fault->0),
{
}

} // verus!
