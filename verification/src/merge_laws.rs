//! What the parts are into which byte pair encoding cuts a byte string, said by the byte
//! strings that have a rank.
use vstd::prelude::*;

use crate::bpe::{
    Rank, bpe_encodable, bpe_encode, bpe_split, is_next_merge, law_split_settled, lemma_merge_step,
    merge_all, merge_at, pair_rank, single_bytes,
};

verus! {

/// Of the neighbours whose concatenation has a rank below `Rank::MAX`, those at `i` and
/// `i + 1` have the least, and are the leftmost that have it.
pub open spec fn is_least_at(ranks: Map<Seq<u8>, Rank>, parts: Seq<Seq<u8>>, i: int) -> bool {
    &&& 0 <= i < parts.len() - 1
    &&& ranks.contains_key(parts[i] + parts[i + 1])
    &&& ranks[parts[i] + parts[i + 1]] < Rank::MAX
    &&& forall|j: int|
        #![trigger parts[j]]
        0 <= j < parts.len() - 1 && ranks.contains_key(parts[j] + parts[j + 1])
            ==> ranks[parts[i] + parts[i + 1]] <= ranks[parts[j] + parts[j + 1]]
    &&& forall|j: int|
        #![trigger parts[j]]
        0 <= j < i && ranks.contains_key(parts[j] + parts[j + 1]) ==> ranks[parts[i] + parts[i + 1]]
            < ranks[parts[j] + parts[j + 1]]
}

/// The parts `after` are those `before` with the neighbours at `i` and `i + 1` joined, which
/// are the leftmost ones of least rank.
pub open spec fn joins_at(
    ranks: Map<Seq<u8>, Rank>,
    before: Seq<Seq<u8>>,
    after: Seq<Seq<u8>>,
    i: int,
) -> bool {
    is_least_at(ranks, before, i) && after == before.take(i) + seq![before[i] + before[i + 1]]
        + before.skip(i + 2)
}

/// The parts `after` are those `before` with the leftmost neighbours of least rank joined.
pub open spec fn is_joined(
    ranks: Map<Seq<u8>, Rank>,
    before: Seq<Seq<u8>>,
    after: Seq<Seq<u8>>,
) -> bool {
    exists|i: int| joins_at(ranks, before, after, i)
}

/// Each list of parts comes of the one before by joining two neighbours: the leftmost ones
/// of least rank.
pub open spec fn joins_least(ranks: Map<Seq<u8>, Rank>, steps: Seq<Seq<Seq<u8>>>) -> bool {
    forall|k: int|
        #![trigger steps[k]]
        0 <= k < steps.len() - 1 ==> is_joined(ranks, steps[k], steps[k + 1])
}

/// The next pair to merge is the leftmost one of least rank.
proof fn lemma_next_is_least(ranks: Map<Seq<u8>, Rank>, parts: Seq<Seq<u8>>, i: int)
    requires
        is_next_merge(ranks, parts, i),
    ensures
        is_least_at(ranks, parts, i),
{
    assert forall|j: int|
        #![trigger parts[j]]
        0 <= j < parts.len() - 1 && ranks.contains_key(
            parts[j] + parts[j + 1],
        ) implies ranks[parts[i] + parts[i + 1]] <= ranks[parts[j] + parts[j + 1]] by {
        assert(pair_rank(ranks, parts, j) == ranks[parts[j] + parts[j + 1]]);
    }
    assert forall|j: int|
        #![trigger parts[j]]
        0 <= j < i && ranks.contains_key(
            parts[j] + parts[j + 1],
        ) implies ranks[parts[i] + parts[i + 1]] < ranks[parts[j] + parts[j + 1]] by {
        assert(pair_rank(ranks, parts, j) == ranks[parts[j] + parts[j + 1]]);
    }
}

/// The way from some parts to those that are left in the end.
proof fn lemma_merge_steps(ranks: Map<Seq<u8>, Rank>, parts: Seq<Seq<u8>>) -> (steps: Seq<
    Seq<Seq<u8>>,
>)
    ensures
        steps.len() > 0,
        steps[0] == parts,
        steps.last() == merge_all(ranks, parts),
        joins_least(ranks, steps),
    decreases parts.len(),
{
    if exists|i: int| is_next_merge(ranks, parts, i) {
        let i = choose|i: int| is_next_merge(ranks, parts, i);
        let next = merge_at(parts, i);
        lemma_merge_step(ranks, parts, i);
        lemma_next_is_least(ranks, parts, i);
        let rest = lemma_merge_steps(ranks, next);
        let steps = seq![parts] + rest;
        assert(next =~= parts.take(i) + seq![parts[i] + parts[i + 1]] + parts.skip(i + 2));
        assert(joins_at(ranks, parts, next, i));
        assert forall|k: int|
            #![trigger steps[k]]
            0 <= k < steps.len() - 1 implies is_joined(ranks, steps[k], steps[k + 1]) by {
            if k == 0 {
                assert(steps[1] == rest[0]);
            } else {
                assert(steps[k] == rest[k - 1]);
                assert(steps[k + 1] == rest[k - 1 + 1]);
            }
        }
        steps
    } else {
        seq![parts]
    }
}

/// Byte pair encoding starts with the single bytes, joins the leftmost neighbours of least
/// rank again and again, however long they are, and ends where no two neighbours make up a
/// byte string of a rank below `Rank::MAX`.
pub proof fn law_split_joins_least(ranks: Map<Seq<u8>, Rank>, piece: Seq<u8>) -> (steps: Seq<
    Seq<Seq<u8>>,
>)
    ensures
        steps.len() > 0,
        steps[0].len() == piece.len(),
        forall|i: int| 0 <= i < piece.len() ==> #[trigger] steps[0][i] == seq![piece[i]],
        joins_least(ranks, steps),
        steps.last() == bpe_split(ranks, piece),
        forall|i: int|
            #![trigger steps.last()[i]]
            0 <= i < steps.last().len() - 1 && ranks.contains_key(
                steps.last()[i] + steps.last()[i + 1],
            ) ==> ranks[steps.last()[i] + steps.last()[i + 1]] == Rank::MAX,
{
    let steps = lemma_merge_steps(ranks, Seq::new(piece.len(), |i: int| seq![piece[i]]));
    assert(steps[0] =~= single_bytes(piece));
    assert forall|i: int|
        #![trigger steps.last()[i]]
        0 <= i < steps.last().len() - 1 && ranks.contains_key(
            steps.last()[i] + steps.last()[i + 1],
        ) implies ranks[steps.last()[i] + steps.last()[i + 1]] == Rank::MAX by {
        law_split_settled(ranks, piece, i);
    }
    steps
}

/// Nothing is left to merge: no two neighbouring parts make up a token of a rank below
/// `Rank::MAX`.
pub proof fn law_no_neighbours_are_a_token(ranks: Map<Seq<u8>, Rank>, piece: Seq<u8>, i: int)
    requires
        0 <= i < bpe_split(ranks, piece).len() - 1,
    ensures
        ({
            let parts = bpe_split(ranks, piece);
            ranks.contains_key(parts[i] + parts[i + 1]) ==> ranks[parts[i] + parts[i + 1]]
                == Rank::MAX
        }),
{
    law_split_settled(ranks, piece, i);
}

/// There is one way to join the leftmost neighbours of least rank.
proof fn lemma_joined_unique(
    ranks: Map<Seq<u8>, Rank>,
    parts: Seq<Seq<u8>>,
    a: Seq<Seq<u8>>,
    b: Seq<Seq<u8>>,
)
    requires
        is_joined(ranks, parts, a),
        is_joined(ranks, parts, b),
    ensures
        a == b,
{
    let i = choose|i: int| joins_at(ranks, parts, a, i);
    let j = choose|j: int| joins_at(ranks, parts, b, j);
    let (at_i, at_j) = (parts[i], parts[j]);
    assert(i == j);
}

/// Lists of parts that come of each other by the same rule are the same, as far as both go.
proof fn lemma_steps_agree(
    ranks: Map<Seq<u8>, Rank>,
    a: Seq<Seq<Seq<u8>>>,
    b: Seq<Seq<Seq<u8>>>,
    k: int,
)
    requires
        joins_least(ranks, a),
        joins_least(ranks, b),
        a.len() > 0,
        b.len() > 0,
        a[0] == b[0],
        0 <= k < a.len(),
        k < b.len(),
    ensures
        a[k] == b[k],
    decreases k,
{
    if k > 0 {
        lemma_steps_agree(ranks, a, b, k - 1);
        assert(is_joined(ranks, a[k - 1], a[k - 1 + 1]));
        assert(is_joined(ranks, b[k - 1], b[k - 1 + 1]));
        lemma_joined_unique(ranks, a[k - 1], a[k], b[k]);
    }
}

/// Whoever joins the leftmost neighbours of least rank until none are left comes to the
/// parts of byte pair encoding.
pub proof fn law_joining_least_gives_split(
    ranks: Map<Seq<u8>, Rank>,
    piece: Seq<u8>,
    steps: Seq<Seq<Seq<u8>>>,
)
    requires
        steps.len() > 0,
        steps[0] == Seq::new(piece.len(), |i: int| seq![piece[i]]),
        joins_least(ranks, steps),
        forall|i: int| !#[trigger] is_least_at(ranks, steps.last(), i),
    ensures
        bpe_split(ranks, piece) == steps.last(),
{
    let own = law_split_joins_least(ranks, piece);
    assert(own[0] =~= steps[0]);
    let last = own.len() - 1;
    let end = steps.len() - 1;
    if end > last {
        lemma_steps_agree(ranks, own, steps, last);
        assert(is_joined(ranks, steps[last], steps[last + 1]));
        let parts = own.last();
        let next = steps[last + 1];
        let i = choose|i: int| joins_at(ranks, parts, next, i);
        assert(ranks.contains_key(parts[i] + parts[i + 1]));
        assert(own.last()[i] == parts[i]);
    } else {
        lemma_steps_agree(ranks, own, steps, end);
        if end < last {
            assert(is_joined(ranks, own[end], own[end + 1]));
            let parts = steps.last();
            let next = own[end + 1];
            let i = choose|i: int| joins_at(ranks, parts, next, i);
            assert(is_least_at(ranks, steps.last(), i));
        }
    }
}

/// The tokens are the ranks of the parts, one for each, and there are tokens exactly where
/// there is a byte and every part has a rank.
pub proof fn law_tokens_are_ranks_of_split(ranks: Map<Seq<u8>, Rank>, piece: Seq<u8>)
    ensures
        bpe_encode(ranks, piece).len() == bpe_split(ranks, piece).len(),
        forall|i: int|
            0 <= i < bpe_split(ranks, piece).len() ==> #[trigger] bpe_encode(ranks, piece)[i]
                == ranks[bpe_split(ranks, piece)[i]],
        bpe_encodable(ranks, piece) <==> piece.len() > 0 && forall|i: int|
            0 <= i < bpe_split(ranks, piece).len() ==> ranks.contains_key(
                #[trigger] bpe_split(ranks, piece)[i],
            ),
{
}

/// A single byte stays as it is.
pub proof fn law_split_of_one_byte(ranks: Map<Seq<u8>, Rank>, byte: u8)
    ensures
        bpe_split(ranks, seq![byte]) == seq![seq![byte]],
{
    let steps = seq![seq![seq![byte]]];
    assert(steps[0] =~= Seq::new(seq![byte].len(), |i: int| seq![seq![byte][i]]));
    law_joining_least_gives_split(ranks, seq![byte], steps);
}

} // verus!
