//! When the two vocabulary files of GPT-2 agree, and what is said where they do not.
use vstd::prelude::*;
use vstd::set_lib::*;
use vstd::utf8::*;

use crate::bpe::Rank;
use crate::data_gym::Fault;
use crate::json::listing;
use crate::rank_laws::lemma_check_entries;
use crate::ranks::{
    Check, all_tokens, byte_list, check_entries, check_entry, lemma_places,
    listed_ranks, mergeable_ranks, places, settled, unchecked,
};
use crate::text::decimal;

verus! {

/// The token is one of the two marks that `encoder.json` lists besides the merges.
pub open spec fn is_mark(token: Seq<u8>) -> bool {
    token == encode_utf8("<|endoftext|>"@) || token == encode_utf8("<|startoftext|>"@)
}

/// The token stands at a place of a list, and at none behind it.
pub open spec fn stands_last_at(tokens: Seq<Seq<u8>>, token: Seq<u8>, place: int) -> bool {
    &&& 0 <= place < tokens.len()
    &&& tokens[place] == token
    &&& forall|i: int| place < i < tokens.len() ==> #[trigger] tokens[i] != token
}

/// The last entry of a token gives it this rank.
pub open spec fn is_ranked_last(
    entries: Seq<(Seq<u8>, Rank)>,
    token: Seq<u8>,
    rank: Rank,
) -> bool {
    exists|j: int|
        0 <= j < entries.len() && #[trigger] entries[j] == (token, rank) && forall|k: int|
            j < k < entries.len() ==> (#[trigger] entries[k]).0 != token
}

/// The entry agrees with the tokens: it is one of the two marks, or a token that stands in
/// the list, and the last rank that it is given is its last place; with `clobber`, a token
/// of one byte may have any rank.
pub open spec fn entry_agrees(
    tokens: Seq<Seq<u8>>,
    entries: Seq<(Seq<u8>, Rank)>,
    clobber: bool,
    j: int,
) -> bool {
    let token = entries[j].0;
    ||| is_mark(token)
    ||| exists|place: int| #[trigger]
        stands_last_at(tokens, token, place) && (clobber && token.len() == 1 || place <= Rank::MAX
            && is_ranked_last(entries, token, place as Rank))
}

/// The token is listed, and not one of the two marks.
pub open spec fn is_listed(entries: Seq<(Seq<u8>, Rank)>, token: Seq<u8>) -> bool {
    !is_mark(token) && exists|j: int| 0 <= j < entries.len() && (#[trigger] entries[j]).0 == token
}

/// The index gives each token its last place.
proof fn lemma_last_places(tokens: Seq<Seq<u8>>)
    requires
        tokens.len() <= 0x1_0000_0000,
    ensures
        forall|token: Seq<u8>, place: int| #[trigger]
            stands_last_at(tokens, token, place) <==> places(tokens).contains_key(token)
                && places(tokens)[token] == place,
        places(tokens).dom() == tokens.to_set(),
    decreases tokens.len(),
{
    if tokens.len() > 0 {
        let before = tokens.drop_last();
        let last = tokens.len() - 1;
        lemma_last_places(before);
        assert forall|token: Seq<u8>, place: int| #[trigger]
            stands_last_at(tokens, token, place) <==> places(tokens).contains_key(token)
                && places(tokens)[token] == place by {
            if token == tokens.last() {
                if stands_last_at(tokens, token, place) && place < last {
                    assert(tokens[last] != token);
                }
                if place == last {
                    assert(stands_last_at(tokens, token, place));
                }
            } else {
                assert(stands_last_at(before, token, place) <==> stands_last_at(
                    tokens,
                    token,
                    place,
                )) by {
                    if stands_last_at(before, token, place) {
                        assert forall|i: int| place < i < tokens.len() implies #[trigger] tokens[i]
                            != token by {
                            if i < last {
                                assert(before[i] == tokens[i]);
                            }
                        }
                    }
                    if stands_last_at(tokens, token, place) {
                        assert(place < last);
                        assert forall|i: int| place < i < before.len() implies #[trigger] before[i]
                            != token by {
                            assert(before[i] == tokens[i]);
                        }
                    }
                }
            }
        }
        assert(tokens.to_set() =~= before.to_set().insert(tokens.last())) by {
            assert forall|token: Seq<u8>|
                tokens.to_set().contains(token) == before.to_set().insert(
                    tokens.last(),
                ).contains(token) by {
                if tokens.contains(token) {
                    let i = choose|i: int| 0 <= i < tokens.len() && tokens[i] == token;
                    if i < last {
                        assert(before[i] == token);
                    }
                }
                if before.contains(token) {
                    let i = choose|i: int| 0 <= i < before.len() && before[i] == token;
                    assert(tokens[i] == token);
                }
                if token == tokens.last() {
                    assert(tokens[last] == token);
                }
            }
        }
        assert(places(tokens).dom() =~= tokens.to_set());
    } else {
        assert(places(tokens).dom() =~= tokens.to_set());
    }
}

/// The last rank that entries give a token.
proof fn lemma_listed_ranks(entries: Seq<(Seq<u8>, Rank)>, token: Seq<u8>, rank: Rank)
    ensures
        is_ranked_last(entries, token, rank) <==> listed_ranks(entries).contains_key(token)
            && listed_ranks(entries)[token] == rank,
        listed_ranks(entries).contains_key(token) <==> exists|j: int|
            0 <= j < entries.len() && (#[trigger] entries[j]).0 == token,
    decreases entries.len(),
{
    if entries.len() > 0 {
        let before = entries.drop_last();
        let last = entries.len() - 1;
        lemma_listed_ranks(before, token, rank);
        if exists|j: int| 0 <= j < before.len() && (#[trigger] before[j]).0 == token {
            let j = choose|j: int| 0 <= j < before.len() && (#[trigger] before[j]).0 == token;
            assert(entries[j].0 == token);
        }
        if exists|j: int| 0 <= j < entries.len() && (#[trigger] entries[j]).0 == token {
            let j = choose|j: int| 0 <= j < entries.len() && (#[trigger] entries[j]).0 == token;
            if j < last {
                assert(before[j].0 == token);
            }
        }
        if entries.last().0 == token {
            assert(entries[last].0 == token);
            if is_ranked_last(entries, token, rank) {
                let j = choose|j: int|
                    0 <= j < entries.len() && #[trigger] entries[j] == (token, rank) && forall|
                        k: int,
                    |
                        j < k < entries.len() ==> (#[trigger] entries[k]).0 != token;
                if j < last {
                    assert(entries[last].0 != token);
                }
            }
            if entries.last().1 == rank {
                assert(entries[last] == (token, rank));
            }
        } else {
            if is_ranked_last(before, token, rank) {
                let j = choose|j: int|
                    0 <= j < before.len() && #[trigger] before[j] == (token, rank) && forall|
                        k: int,
                    |
                        j < k < before.len() ==> (#[trigger] before[k]).0 != token;
                assert(entries[j] == (token, rank));
                assert forall|k: int| j < k < entries.len() implies (#[trigger] entries[k]).0
                    != token by {
                    if k < last {
                        assert(before[k] == entries[k]);
                    }
                }
            }
            if is_ranked_last(entries, token, rank) {
                let j = choose|j: int|
                    0 <= j < entries.len() && #[trigger] entries[j] == (token, rank) && forall|
                        k: int,
                    |
                        j < k < entries.len() ==> (#[trigger] entries[k]).0 != token;
                assert(before[j] == (token, rank));
                assert forall|k: int| j < k < before.len() implies (#[trigger] before[k]).0
                    != token by {
                    assert(before[k] == entries[k]);
                }
            }
        }
    }
}

/// The entry passes the check.
spec fn passes(index: Map<Seq<u8>, Rank>, clobber: bool, entry: (Seq<u8>, Rank)) -> bool {
    is_mark(entry.0) || index.contains_key(entry.0) && (clobber && entry.0.len() == 1
        || index[entry.0] == entry.1)
}

/// What is said of an entry that does not agree: that no merge makes it, or that it has
/// another rank.
pub open spec fn disagreement(tokens: Seq<Seq<u8>>, token: Seq<u8>, rank: Rank) -> Fault {
    if tokens.contains(token) {
        let place = choose|place: int| stands_last_at(tokens, token, place);
        Fault {
            message: "encoder.json ranks token "@ + byte_list(token) + " "@ + decimal(rank as nat)
                + ", vocab.bpe ranks it "@ + decimal(place as nat),
            is_mismatch: true,
        }
    } else {
        Fault {
            message: "encoder.json has token "@ + byte_list(token) + " (rank "@ + decimal(
                rank as nat,
            ) + "), which vocab.bpe does not produce"@,
            is_mismatch: true,
        }
    }
}

/// What a check of entries comes to.
proof fn lemma_check_outcome(
    tokens: Seq<Seq<u8>>,
    clobber: bool,
    check: Check,
    entries: Seq<(Seq<u8>, Rank)>,
)
    requires
        tokens.len() <= 0x1_0000_0000,
        check.ranks.len() == tokens.len(),
        forall|place: int|
            0 <= place < tokens.len() && !(clobber && tokens[place].len() == 1)
                ==> #[trigger] check.ranks[place] == place,
    ensures
        (forall|k: int|
            0 <= k < entries.len() ==> passes(places(tokens), clobber, #[trigger] entries[k]))
            ==> check_entries(places(tokens), clobber, check, entries) is Ok,
        forall|k: int|
            #![trigger entries[k]]
            0 <= k < entries.len() && !passes(places(tokens), clobber, entries[k]) && (forall|
                j: int,
            |
                0 <= j < k ==> passes(places(tokens), clobber, #[trigger] entries[j]))
                ==> check_entries(places(tokens), clobber, check, entries) == Err::<Check, Fault>(
                disagreement(tokens, entries[k].0, entries[k].1),
            ),
    decreases entries.len(),
{
    let index = places(tokens);
    lemma_places(tokens);
    lemma_last_places(tokens);
    if entries.len() > 0 {
        let (token, rank) = entries[0];
        let rest = entries.skip(1);
        if passes(index, clobber, entries[0]) {
            if index.contains_key(token) {
                assert(tokens[index[token] as int] == token);
            }
            let next = check_entry(index, clobber, check, entries[0])->Ok_0;
            assert(check_entry(index, clobber, check, entries[0]) is Ok);
            lemma_check_outcome(tokens, clobber, next, rest);
            if forall|k: int|
                0 <= k < entries.len() ==> passes(index, clobber, #[trigger] entries[k]) {
                assert forall|k: int| 0 <= k < rest.len() implies passes(
                    index,
                    clobber,
                    #[trigger] rest[k],
                ) by {
                    assert(rest[k] == entries[k + 1]);
                }
            }
            assert forall|k: int|
                #![trigger entries[k]]
                0 <= k < entries.len() && !passes(index, clobber, entries[k]) && (forall|j: int|
                    0 <= j < k ==> passes(index, clobber, #[trigger] entries[j])) implies
                check_entries(index, clobber, check, entries) == Err::<Check, Fault>(
                disagreement(tokens, entries[k].0, entries[k].1),
            ) by {
                assert(rest[k - 1] == entries[k]);
                assert forall|j: int| 0 <= j < k - 1 implies passes(
                    index,
                    clobber,
                    #[trigger] rest[j],
                ) by {
                    assert(rest[j] == entries[j + 1]);
                }
            }
        } else {
            if index.contains_key(token) {
                let place = index[token] as int;
                assert(stands_last_at(tokens, token, place));
                assert(tokens[place] == token);
                assert(check.ranks[place] == place);
                let other = choose|other: int| stands_last_at(tokens, token, other);
                assert(stands_last_at(tokens, token, other));
                assert(other == place);
            } else {
                assert(!tokens.to_set().contains(token));
            }
            assert(check_entry(index, clobber, check, entries[0]) == Err::<Check, Fault>(
                disagreement(tokens, token, rank),
            ));
            assert forall|k: int|
                #![trigger entries[k]]
                0 <= k < entries.len() && !passes(index, clobber, entries[k]) && (forall|j: int|
                    0 <= j < k ==> passes(index, clobber, #[trigger] entries[j])) implies
                check_entries(index, clobber, check, entries) == Err::<Check, Fault>(
                disagreement(tokens, entries[k].0, entries[k].1),
            ) by {
                if k > 0 {
                    assert(passes(index, clobber, entries[0]));
                }
            }
        }
    }
}

/// Entries pass where they agree.
proof fn lemma_passes(
    tokens: Seq<Seq<u8>>,
    entries: Seq<(Seq<u8>, Rank)>,
    clobber: bool,
    j: int,
)
    requires
        tokens.len() <= 0x1_0000_0000,
        0 <= j < entries.len(),
    ensures
        passes(places(tokens), clobber, settled(entries)[j]) <==> entry_agrees(
            tokens,
            entries,
            clobber,
            j,
        ),
        settled(entries)[j].0 == entries[j].0,
        is_ranked_last(entries, entries[j].0, settled(entries)[j].1),
{
    let token = entries[j].0;
    let rank = settled(entries)[j].1;
    lemma_last_places(tokens);
    lemma_places(tokens);
    lemma_listed_ranks(entries, token, rank);
    if entry_agrees(tokens, entries, clobber, j) && !is_mark(token) {
        let place = choose|place: int| #[trigger]
            stands_last_at(tokens, token, place) && (clobber && token.len() == 1 || place
                <= Rank::MAX && is_ranked_last(entries, token, place as Rank));
        lemma_listed_ranks(entries, token, place as Rank);
    }
    if passes(places(tokens), clobber, settled(entries)[j]) && !is_mark(token) {
        assert(stands_last_at(tokens, token, places(tokens)[token] as int));
    }
}

/// The tokens that are listed.
proof fn lemma_listed_set(
    tokens: Seq<Seq<u8>>,
    clobber: bool,
    entries: Seq<(Seq<u8>, Rank)>,
) -> (end: Check)
    requires
        tokens.len() <= 0x1_0000_0000,
        check_entries(places(tokens), clobber, unchecked(tokens.len()), settled(entries)) is Ok,
    ensures
        check_entries(places(tokens), clobber, unchecked(tokens.len()), settled(entries)) == Ok::<
            Check,
            Fault,
        >(end),
        end.ranks.len() == tokens.len(),
        end.listed.finite(),
        end.listed.subset_of(tokens.to_set()),
        forall|token: Seq<u8>| #[trigger] end.listed.contains(token) <==> is_listed(entries, token),
        forall|token: Seq<u8>| #[trigger]
            end.listed.contains(token) ==> places(tokens).contains_key(token)
                && end.ranks[places(tokens)[token] as int] == listed_ranks(entries)[token],
        forall|place: int|
            0 <= place < tokens.len() && !(clobber && tokens[place].len() == 1)
                ==> #[trigger] end.ranks[place] == place,
        forall|place: int|
            0 <= place < tokens.len() && (exists|later: int|
                place < later < tokens.len() && #[trigger] tokens[later] == tokens[place])
                ==> #[trigger] end.ranks[place] == place,
{
    let start = unchecked(tokens.len());
    let list = settled(entries);
    let end = check_entries(places(tokens), clobber, start, list)->Ok_0;
    lemma_last_places(tokens);
    lemma_check_entries(tokens, clobber, start, list, listed_ranks(entries), end);
    lemma_only_last_places(tokens, clobber, start, list, end);
    assert forall|token: Seq<u8>| #[trigger] end.listed.contains(token) <==> is_listed(
        entries,
        token,
    ) by {
        if end.listed.contains(token) {
            let i = choose|i: int| 0 <= i < list.len() && (#[trigger] list[i]).0 == token;
            assert(entries[i].0 == token);
        }
        if is_listed(entries, token) {
            let j = choose|j: int| 0 <= j < entries.len() && (#[trigger] entries[j]).0 == token;
            assert(list[j].0 == token);
        }
    }
    assert forall|place: int|
        0 <= place < tokens.len() && !(clobber && tokens[place].len() == 1) implies
        #[trigger] end.ranks[place] == place by {
        assert(start.ranks[place] == place);
    }
    assert forall|place: int|
        0 <= place < tokens.len() && (exists|later: int|
            place < later < tokens.len() && #[trigger] tokens[later] == tokens[place]) implies
        #[trigger] end.ranks[place] == place by {
        assert(start.ranks[place] == place);
        let later = choose|later: int|
            place < later < tokens.len() && #[trigger] tokens[later] == tokens[place];
        if places(tokens).contains_key(tokens[place]) && places(tokens)[tokens[place]] == place {
            assert(stands_last_at(tokens, tokens[place], place));
        }
    }
    end
}

/// A check changes no rank but at the last place of a token, and finds no more than the
/// marks and the tokens.
proof fn lemma_only_last_places(
    tokens: Seq<Seq<u8>>,
    clobber: bool,
    check: Check,
    entries: Seq<(Seq<u8>, Rank)>,
    end: Check,
)
    requires
        tokens.len() <= 0x1_0000_0000,
        check.ranks.len() == tokens.len(),
        forall|token: Seq<u8>| #[trigger] check.listed.contains(token) ==> !is_mark(token),
        check_entries(places(tokens), clobber, check, entries) == Ok::<Check, Fault>(end),
    ensures
        forall|token: Seq<u8>| #[trigger] end.listed.contains(token) ==> !is_mark(token),
        forall|place: int|
            0 <= place < tokens.len() && !(places(tokens).contains_key(tokens[place])
                && places(tokens)[tokens[place]] == place) ==> #[trigger] end.ranks[place]
                == check.ranks[place],
    decreases entries.len(),
{
    lemma_places(tokens);
    if entries.len() > 0 {
        let next = check_entry(places(tokens), clobber, check, entries[0])->Ok_0;
        lemma_only_last_places(tokens, clobber, next, entries.skip(1), end);
    }
}

/// The two files agree exactly where `encoder.json` is well formed, each of its entries
/// agrees, and every token is listed.
pub proof fn law_ranks_where_files_agree(
    map: Map<char, u8>,
    singles: Seq<u8>,
    vocab_bpe: Seq<char>,
    encoder_json: Seq<u8>,
    clobber: bool,
)
    requires
        all_tokens(map, singles, vocab_bpe) is Ok,
        all_tokens(map, singles, vocab_bpe)->Ok_0.len() <= 0x1_0000_0000,
        listing(encoder_json, map).fault is None,
    ensures
        ({
            let tokens = all_tokens(map, singles, vocab_bpe)->Ok_0;
            let entries = listing(encoder_json, map).entries;
            &&& mergeable_ranks(map, singles, vocab_bpe, encoder_json, clobber) is Ok <==> (forall|
                j: int,
            |
                0 <= j < entries.len() ==> #[trigger] entry_agrees(tokens, entries, clobber, j))
                && (forall|i: int|
                0 <= i < tokens.len() ==> is_listed(entries, #[trigger] tokens[i]))
            &&& mergeable_ranks(map, singles, vocab_bpe, encoder_json, clobber) matches Ok(ranked)
                ==> {
                &&& ranked.len() == tokens.len()
                &&& forall|i: int| 0 <= i < tokens.len() ==> (#[trigger] ranked[i]).0 == tokens[i]
                &&& forall|i: int|
                    0 <= i < tokens.len() && clobber && tokens[i].len() == 1 && stands_last_at(
                        tokens,
                        tokens[i],
                        i,
                    ) ==> is_ranked_last(entries, tokens[i], (#[trigger] ranked[i]).1)
                &&& forall|i: int|
                    0 <= i < tokens.len() && !(clobber && tokens[i].len() == 1 && stands_last_at(
                        tokens,
                        tokens[i],
                        i,
                    )) ==> (#[trigger] ranked[i]).1 == i
            }
        }),
{
    let tokens = all_tokens(map, singles, vocab_bpe)->Ok_0;
    let entries = listing(encoder_json, map).entries;
    let list = settled(entries);
    let index = places(tokens);
    let start = unchecked(tokens.len());
    lemma_places(tokens);
    lemma_last_places(tokens);
    lemma_check_outcome(tokens, clobber, start, list);
    let all_agree = forall|j: int|
        0 <= j < entries.len() ==> #[trigger] entry_agrees(tokens, entries, clobber, j);
    assert(all_agree <==> check_entries(index, clobber, start, list) is Ok) by {
        if all_agree {
            assert forall|k: int| 0 <= k < list.len() implies passes(
                index,
                clobber,
                #[trigger] list[k],
            ) by {
                lemma_passes(tokens, entries, clobber, k);
                assert(entry_agrees(tokens, entries, clobber, k));
            }
        } else {
            let j = choose|j: int|
                0 <= j < entries.len() && !#[trigger] entry_agrees(tokens, entries, clobber, j);
            lemma_passes(tokens, entries, clobber, j);
            assert(!passes(index, clobber, list[j]));
            let k = lemma_first_failing(index, clobber, list, j);
            assert(!passes(index, clobber, list[k]));
        }
    }
    if all_agree {
        let end = lemma_listed_set(tokens, clobber, entries);
        let every = forall|i: int|
            0 <= i < tokens.len() ==> is_listed(entries, #[trigger] tokens[i]);
        assert(every <==> end.listed.len() == index.dom().len()) by {
            if every {
                assert forall|token: Seq<u8>| tokens.to_set().contains(
                    token,
                ) implies end.listed.contains(token) by {
                    let i = choose|i: int| 0 <= i < tokens.len() && tokens[i] == token;
                    assert(is_listed(entries, tokens[i]));
                }
                assert(end.listed =~= index.dom());
            }
            if end.listed.len() == index.dom().len() {
                lemma_subset_equality(end.listed, index.dom());
                assert forall|i: int| 0 <= i < tokens.len() implies is_listed(
                    entries,
                    #[trigger] tokens[i],
                ) by {
                    assert(tokens.to_set().contains(tokens[i]));
                    assert(end.listed.contains(tokens[i]));
                }
            }
        }
        if let Ok(ranked) = mergeable_ranks(map, singles, vocab_bpe, encoder_json, clobber) {
            assert forall|i: int|
                0 <= i < tokens.len() && clobber && tokens[i].len() == 1 && stands_last_at(
                    tokens,
                    tokens[i],
                    i,
                ) implies is_ranked_last(entries, tokens[i], (#[trigger] ranked[i]).1) by {
                assert(is_listed(entries, tokens[i]));
                assert(end.listed.contains(tokens[i]));
                lemma_listed_ranks(entries, tokens[i], ranked[i].1);
            }
            assert forall|i: int|
                0 <= i < tokens.len() && !(clobber && tokens[i].len() == 1 && stands_last_at(
                    tokens,
                    tokens[i],
                    i,
                )) implies (#[trigger] ranked[i]).1 == i by {
                assert(ranked[i].1 == end.ranks[i]);
                if clobber && tokens[i].len() == 1 {
                    let later = choose|later: int|
                        i < later < tokens.len() && #[trigger] tokens[later] == tokens[i];
                    assert(tokens[later] == tokens[i]);
                }
            }
        }
    }
}

/// Among the entries up to one that does not pass there is a first.
proof fn lemma_first_failing(
    index: Map<Seq<u8>, Rank>,
    clobber: bool,
    entries: Seq<(Seq<u8>, Rank)>,
    j: int,
) -> (k: int)
    requires
        0 <= j < entries.len(),
        !passes(index, clobber, entries[j]),
    ensures
        0 <= k <= j,
        !passes(index, clobber, entries[k]),
        forall|i: int| 0 <= i < k ==> passes(index, clobber, #[trigger] entries[i]),
    decreases j,
{
    if forall|i: int| 0 <= i < j ==> passes(index, clobber, #[trigger] entries[i]) {
        j
    } else {
        let i = choose|i: int| 0 <= i < j && !passes(index, clobber, #[trigger] entries[i]);
        lemma_first_failing(index, clobber, entries, i)
    }
}

/// The first entry that does not agree is told, with the last rank that it is given.
pub proof fn law_first_disagreement_is_told(
    map: Map<char, u8>,
    singles: Seq<u8>,
    vocab_bpe: Seq<char>,
    encoder_json: Seq<u8>,
    clobber: bool,
    k: int,
    rank: Rank,
)
    requires
        all_tokens(map, singles, vocab_bpe) is Ok,
        all_tokens(map, singles, vocab_bpe)->Ok_0.len() <= 0x1_0000_0000,
        listing(encoder_json, map).fault is None,
        0 <= k < listing(encoder_json, map).entries.len(),
        !entry_agrees(
            all_tokens(map, singles, vocab_bpe)->Ok_0,
            listing(encoder_json, map).entries,
            clobber,
            k,
        ),
        forall|j: int|
            0 <= j < k ==> #[trigger] entry_agrees(
                all_tokens(map, singles, vocab_bpe)->Ok_0,
                listing(encoder_json, map).entries,
                clobber,
                j,
            ),
        is_ranked_last(
            listing(encoder_json, map).entries,
            listing(encoder_json, map).entries[k].0,
            rank,
        ),
    ensures
        mergeable_ranks(map, singles, vocab_bpe, encoder_json, clobber) == Err::<
            Seq<(Seq<u8>, Rank)>,
            Fault,
        >(
            disagreement(
                all_tokens(map, singles, vocab_bpe)->Ok_0,
                listing(encoder_json, map).entries[k].0,
                rank,
            ),
        ),
{
    let tokens = all_tokens(map, singles, vocab_bpe)->Ok_0;
    let entries = listing(encoder_json, map).entries;
    let list = settled(entries);
    lemma_check_outcome(tokens, clobber, unchecked(tokens.len()), list);
    lemma_passes(tokens, entries, clobber, k);
    lemma_listed_ranks(entries, entries[k].0, rank);
    lemma_listed_ranks(entries, entries[k].0, list[k].1);
    assert forall|j: int| 0 <= j < k implies passes(
        places(tokens),
        clobber,
        #[trigger] list[j],
    ) by {
        lemma_passes(tokens, entries, clobber, j);
        assert(entry_agrees(tokens, entries, clobber, j));
    }
    assert(list[k] == (entries[k].0, rank));
}

/// Where every entry agrees, but not every token is listed, both numbers are told: of the
/// different tokens, and of those that are listed.
pub proof fn law_missing_tokens_are_told(
    map: Map<char, u8>,
    singles: Seq<u8>,
    vocab_bpe: Seq<char>,
    encoder_json: Seq<u8>,
    clobber: bool,
    missing: int,
)
    requires
        all_tokens(map, singles, vocab_bpe) is Ok,
        all_tokens(map, singles, vocab_bpe)->Ok_0.len() <= 0x1_0000_0000,
        listing(encoder_json, map).fault is None,
        forall|j: int|
            0 <= j < listing(encoder_json, map).entries.len() ==> #[trigger] entry_agrees(
                all_tokens(map, singles, vocab_bpe)->Ok_0,
                listing(encoder_json, map).entries,
                clobber,
                j,
            ),
        0 <= missing < all_tokens(map, singles, vocab_bpe)->Ok_0.len(),
        !is_listed(
            listing(encoder_json, map).entries,
            all_tokens(map, singles, vocab_bpe)->Ok_0[missing],
        ),
    ensures
        ({
            let tokens = all_tokens(map, singles, vocab_bpe)->Ok_0;
            let entries = listing(encoder_json, map).entries;
            let listed = Set::new(|token: Seq<u8>| is_listed(entries, token));
            mergeable_ranks(map, singles, vocab_bpe, encoder_json, clobber) == Err::<
                Seq<(Seq<u8>, Rank)>,
                Fault,
            >(
                Fault {
                    message: "vocab.bpe produces "@ + decimal(tokens.to_set().len())
                        + " tokens, encoder.json lists "@ + decimal(listed.len()),
                    is_mismatch: true,
                },
            )
        }),
{
    let tokens = all_tokens(map, singles, vocab_bpe)->Ok_0;
    let entries = listing(encoder_json, map).entries;
    let list = settled(entries);
    let index = places(tokens);
    let listed = Set::new(|token: Seq<u8>| is_listed(entries, token));
    lemma_places(tokens);
    lemma_last_places(tokens);
    lemma_check_outcome(tokens, clobber, unchecked(tokens.len()), list);
    assert forall|k: int| 0 <= k < list.len() implies passes(
        index,
        clobber,
        #[trigger] list[k],
    ) by {
        lemma_passes(tokens, entries, clobber, k);
        assert(entry_agrees(tokens, entries, clobber, k));
    }
    let end = lemma_listed_set(tokens, clobber, entries);
    assert(end.listed =~= listed);
    if end.listed.len() == index.dom().len() {
        lemma_subset_equality(end.listed, index.dom());
        assert(tokens.to_set().contains(tokens[missing]));
        assert(end.listed.contains(tokens[missing]));
    }
}

/// A file that cannot be read is told before the files are held against each other, and
/// too many tokens before `encoder.json` is read.
pub proof fn law_faults_of_files_are_told(
    map: Map<char, u8>,
    singles: Seq<u8>,
    vocab_bpe: Seq<char>,
    encoder_json: Seq<u8>,
    clobber: bool,
)
    ensures
        all_tokens(map, singles, vocab_bpe) matches Err(fault) ==> mergeable_ranks(
            map,
            singles,
            vocab_bpe,
            encoder_json,
            clobber,
        ) == Err::<Seq<(Seq<u8>, Rank)>, Fault>(fault),
        all_tokens(map, singles, vocab_bpe) matches Ok(tokens) ==> {
            &&& tokens.len() > 0x1_0000_0000 ==> mergeable_ranks(
                map,
                singles,
                vocab_bpe,
                encoder_json,
                clobber,
            ) == Err::<Seq<(Seq<u8>, Rank)>, Fault>(
                Fault { message: "too many tokens for a 32-bit rank"@, is_mismatch: false },
            )
            &&& tokens.len() <= 0x1_0000_0000 && listing(encoder_json, map).fault is Some
                ==> mergeable_ranks(map, singles, vocab_bpe, encoder_json, clobber) == Err::<
                Seq<(Seq<u8>, Rank)>,
                Fault,
            >(listing(encoder_json, map).fault->0)
        },
{
}

} // verus!
