//! Byte pair encoding.
use rustc_hash::FxHashMap;
use vstd::prelude::*;

use crate::bpe::Rank;
use crate::bpe::{
    are_bounds, bpe_encodable, bpe_encode, bpe_split, is_next_merge, merge_all, merge_at,
    pair_rank, parts_between, ranks_of_parts, single_bytes, span_rank,
};
use crate::bpe::{
    lemma_all_bounds, lemma_merge_done, lemma_merge_drops_bound, lemma_merge_step,
    lemma_pair_rank_of_bounds,
};
use crate::merge_large::_byte_pair_merge_large;
use crate::tables::{rank_of, rank_table};

verus! {

/// The rank of `piece[from..to]`, or `Rank::MAX` where it has none.
fn rank_of_span(ranks: &FxHashMap<Vec<u8>, Rank>, piece: &[u8], from: usize, to: usize) -> (rank:
    Rank)
    requires
        from <= to <= piece@.len(),
    ensures
        rank == span_rank(rank_table(*ranks), piece@, from as int, to as int),
{
    match rank_of(ranks, &piece[from..to]) {
        Some(rank) => rank,
        None => Rank::MAX,
    }
}

/// The bounds in a list of parts, each given by its start and the rank of the pair
/// that starts there.
spec fn starts(parts: Seq<(usize, Rank)>) -> Seq<int> {
    Seq::new(parts.len(), |i: int| parts[i].0 as int)
}

/// Each of the parts is listed with the rank of the pair that it starts.
#[verifier::opaque]
spec fn lists_pair_ranks(
    ranks: Map<Seq<u8>, Rank>,
    piece: Seq<u8>,
    parts: Seq<(usize, Rank)>,
) -> bool {
    forall|k: int|
        0 <= k < parts.len() - 1 ==> (#[trigger] parts[k]).1 == pair_rank(
            ranks,
            parts_between(piece, starts(parts)),
            k,
        )
}

/// `parts` lists bounds of `piece`, and with each the rank of its pair.
spec fn parts_wf(ranks: Map<Seq<u8>, Rank>, piece: Seq<u8>, parts: Seq<(usize, Rank)>) -> bool {
    &&& are_bounds(starts(parts), piece.len() as int)
    &&& lists_pair_ranks(ranks, piece, parts)
}

/// `min` is the least rank among the first `len` parts with the leftmost position
/// that has it, or `Rank::MAX` where none has a lower one.
spec fn is_min(parts: Seq<(usize, Rank)>, len: int, min: (Rank, usize)) -> bool {
    if min.0 == Rank::MAX {
        forall|k: int| 0 <= k < len ==> (#[trigger] parts[k]).1 == Rank::MAX
    } else {
        &&& min.1 < len
        &&& parts[min.1 as int].1 == min.0
        &&& forall|k: int| 0 <= k < len ==> min.0 <= (#[trigger] parts[k]).1
        &&& forall|k: int| 0 <= k < min.1 ==> min.0 < (#[trigger] parts[k]).1
    }
}

/// The pair of least rank is the one to merge next.
proof fn lemma_min_is_next_merge(
    ranks: Map<Seq<u8>, Rank>,
    piece: Seq<u8>,
    parts: Seq<(usize, Rank)>,
    min: (Rank, usize),
)
    requires
        parts_wf(ranks, piece, parts),
        is_min(parts, parts.len() - 1, min),
        min.0 != Rank::MAX,
    ensures
        is_next_merge(ranks, parts_between(piece, starts(parts)), min.1 as int),
        min.1 + 2 < parts.len(),
{
    reveal(lists_pair_ranks);
    let split = parts_between(piece, starts(parts));
    let i = min.1 as int;
    assert(parts[i].1 == pair_rank(ranks, split, i));
    assert forall|j: int| 0 <= j < split.len() - 1 implies pair_rank(ranks, split, i)
        <= #[trigger] pair_rank(ranks, split, j) by {
        assert(parts[j].1 == pair_rank(ranks, split, j));
    }
    assert forall|j: int| 0 <= j < i implies pair_rank(ranks, split, i) < #[trigger] pair_rank(
        ranks,
        split,
        j,
    ) by {
        assert(parts[j].1 == pair_rank(ranks, split, j));
    }
}

/// Dropping part `i + 1`, with new ranks for the two pairs that change, lists the
/// parts after the merge.
proof fn lemma_parts_after_merge(
    ranks: Map<Seq<u8>, Rank>,
    piece: Seq<u8>,
    before: Seq<(usize, Rank)>,
    after: Seq<(usize, Rank)>,
    i: int,
)
    requires
        parts_wf(ranks, piece, before),
        0 <= i < before.len() - 2,
        after.len() == before.len() - 1,
        starts(after) == starts(before).remove(i + 1),
        forall|k: int| 0 <= k < i - 1 ==> #[trigger] after[k] == before[k],
        forall|k: int| i < k < after.len() ==> #[trigger] after[k] == before[k + 1],
        i > 0 ==> after[i - 1].1 == span_rank(
            ranks,
            piece,
            starts(before)[i - 1],
            starts(before)[i + 2],
        ),
        after[i].1 == (if i + 3 < before.len() {
            span_rank(ranks, piece, starts(before)[i], starts(before)[i + 3])
        } else {
            Rank::MAX
        }),
    ensures
        parts_wf(ranks, piece, after),
        merge_at(parts_between(piece, starts(before)), i) == parts_between(piece, starts(after)),
{
    reveal(lists_pair_ranks);
    let bounds = starts(before);
    let fewer = starts(after);
    lemma_merge_drops_bound(piece, bounds, i);
    assert forall|k: int| 0 <= k < after.len() - 1 implies (#[trigger] after[k]).1 == pair_rank(
        ranks,
        parts_between(piece, fewer),
        k,
    ) by {
        if k < after.len() - 2 {
            lemma_pair_rank_of_bounds(ranks, piece, fewer, k);
        }
        if k < i - 1 {
            lemma_pair_rank_of_bounds(ranks, piece, bounds, k);
            assert(before[k].1 == pair_rank(ranks, parts_between(piece, bounds), k));
        } else if k > i {
            assert(before[k + 1].1 == pair_rank(ranks, parts_between(piece, bounds), k + 1));
            if k + 1 < bounds.len() - 2 {
                lemma_pair_rank_of_bounds(ranks, piece, bounds, k + 1);
            }
        }
    }
}

/// The rank of the pair that starts at part `i` once part `i + 1` is gone.
fn rank_across(
    ranks: &FxHashMap<Vec<u8>, Rank>,
    piece: &[u8],
    parts: &Vec<(usize, Rank)>,
    i: usize,
) -> (rank: Rank)
    requires
        are_bounds(starts(parts@), piece@.len() as int),
        i < parts@.len(),
    ensures
        rank == (if i + 3 < parts@.len() {
            span_rank(
                rank_table(*ranks),
                piece@,
                parts@[i as int].0 as int,
                parts@[i + 3].0 as int,
            )
        } else {
            Rank::MAX
        }),
{
    if parts.len() - i > 3 {
        proof {
            let bounds = starts(parts@);
            assert(bounds[i as int] < bounds[i + 3] <= bounds.last());
        }
        rank_of_span(ranks, piece, parts[i].0, parts[i + 3].0)
    } else {
        Rank::MAX
    }
}

/// Merges the parts `i` and `i + 1`.
fn merge_pair(
    ranks: &FxHashMap<Vec<u8>, Rank>,
    piece: &[u8],
    parts: &mut Vec<(usize, Rank)>,
    i: usize,
)
    requires
        parts_wf(rank_table(*ranks), piece@, old(parts)@),
        i + 2 < old(parts)@.len(),
    ensures
        parts_wf(rank_table(*ranks), piece@, final(parts)@),
        final(parts)@.len() == old(parts)@.len() - 1,
        parts_between(piece@, starts(final(parts)@)) == merge_at(
            parts_between(piece@, starts(old(parts)@)),
            i as int,
        ),
        final(parts)@.last() == old(parts)@.last(),
{
    let ghost bounds = starts(parts@);
    let ghost before = parts@;
    assert(parts@.len() == parts.len());
    // The ranks are updated before part `i + 1` is removed.
    if i > 0 {
        let rank = rank_across(ranks, piece, parts, i - 1);
        let start = parts[i - 1].0;
        parts.set(i - 1, (start, rank));
    }
    assert(starts(parts@) =~= bounds);
    let rank = rank_across(ranks, piece, parts, i);
    let start = parts[i].0;
    parts.set(i, (start, rank));
    parts.remove(i + 1);
    proof {
        assert(starts(parts@) =~= bounds.remove(i + 1));
        lemma_parts_after_merge(rank_table(*ranks), piece@, before, parts@, i as int);
    }
}

/// The least rank of a pair, with the leftmost part that has it.
fn least_rank(parts: &Vec<(usize, Rank)>) -> (min: (Rank, usize))
    requires
        parts@.len() > 0,
    ensures
        is_min(parts@, parts@.len() - 1, min),
{
    let count = parts.len() - 1;
    let mut min: (Rank, usize) = (Rank::MAX, usize::MAX);
    let mut k: usize = 0;
    while k < count
        invariant
            count == parts@.len() - 1,
            k <= count,
            is_min(parts@, k as int, min),
        decreases count - k,
    {
        let rank = parts[k].1;
        if rank < min.0 {
            min = (rank, k);
        }
        k += 1;
    }
    min
}

/// Cuts `piece` into parts by merging the pair of least rank until no pair can be
/// merged. Returns the start of each part, with the end of the last one behind them. The
/// rank beside each of them is that of the pair that starts there: none is left.
///
/// With n parts and m merges this does O(mn) work; n is often very small, so a plain
/// list is a good choice.
fn _byte_pair_merge(ranks: &FxHashMap<Vec<u8>, Rank>, piece: &[u8]) -> (parts: Vec<
    (usize, Rank),
>)
    requires
        piece@.len() > 0,
    ensures
        are_bounds(starts(parts@), piece@.len() as int),
        parts_between(piece@, starts(parts@)) == bpe_split(rank_table(*ranks), piece@),
        forall|k: int| 0 <= k < parts@.len() ==> (#[trigger] parts@[k]).1 == Rank::MAX,
{
    let ghost table = rank_table(*ranks);
    let len = piece.len();
    let mut parts: Vec<(usize, Rank)> = Vec::with_capacity(len);
    let mut min_rank: (Rank, usize) = (Rank::MAX, usize::MAX);
    let mut i: usize = 0;
    while i < len - 1
        invariant
            table == rank_table(*ranks),
            len == piece@.len(),
            i <= len - 1,
            parts@.len() == i,
            forall|k: int|
                0 <= k < i ==> (#[trigger] parts@[k]).0 == k && parts@[k].1 == span_rank(
                    table,
                    piece@,
                    k,
                    k + 2,
                ),
            is_min(parts@, i as int, min_rank),
        decreases len - i,
    {
        let rank = rank_of_span(ranks, piece, i, i + 2);
        if rank < min_rank.0 {
            min_rank = (rank, i);
        }
        parts.push((i, rank));
        i += 1;
    }
    parts.push((len - 1, Rank::MAX));
    parts.push((len, Rank::MAX));
    proof {
        lemma_all_bounds(piece@);
        assert(starts(parts@) =~= Seq::new(piece@.len() + 1, |k: int| k));
        assert forall|k: int| 0 <= k < parts@.len() - 1 implies (#[trigger] parts@[k]).1
            == pair_rank(table, parts_between(piece@, starts(parts@)), k) by {
            if k < len - 1 {
                lemma_pair_rank_of_bounds(table, piece@, starts(parts@), k);
            }
        }
        reveal(lists_pair_ranks);
    }

    while min_rank.0 != Rank::MAX
        invariant
            table == rank_table(*ranks),
            parts_wf(table, piece@, parts@),
            is_min(parts@, parts@.len() - 1, min_rank),
            parts@.last().1 == Rank::MAX,
            merge_all(table, parts_between(piece@, starts(parts@))) == bpe_split(table, piece@),
        decreases parts@.len(),
    {
        proof {
            lemma_min_is_next_merge(table, piece@, parts@, min_rank);
            lemma_merge_step(table, parts_between(piece@, starts(parts@)), min_rank.1 as int);
        }
        merge_pair(ranks, piece, &mut parts, min_rank.1);
        min_rank = least_rank(&parts);
    }
    proof {
        let split = parts_between(piece@, starts(parts@));
        reveal(lists_pair_ranks);
        assert forall|k: int| 0 <= k < split.len() - 1 implies #[trigger] pair_rank(
            table,
            split,
            k,
        ) == Rank::MAX by {
            assert(parts@[k].1 == pair_rank(table, split, k));
        }
        lemma_merge_done(table, split);
    }
    parts
}

/// The tokens of `piece`, or `None` where it is empty or a part of it that is left in
/// the end has no rank.
///
/// Long byte strings are encoded with a priority queue of merges, short ones with a
/// plain list of parts: the tokens are the same.
pub fn try_byte_pair_encode(piece: &[u8], ranks: &FxHashMap<Vec<u8>, Rank>) -> (tokens: Option<
    Vec<Rank>,
>)
    ensures
        tokens is Some <==> bpe_encodable(rank_table(*ranks), piece@),
        tokens is Some ==> tokens->0@ == bpe_encode(rank_table(*ranks), piece@),
{
    let ghost table = rank_table(*ranks);
    let ghost split = bpe_split(table, piece@);
    if piece.len() == 0 {
        return None;
    }
    let mut tokens: Vec<Rank> = Vec::new();
    if piece.len() == 1 {
        proof {
            lemma_merge_done(table, single_bytes(piece@));
            assert(split =~= seq![piece@]) by {
                assert(seq![piece@[0]] =~= piece@);
            }
            assert(split[0] == piece@);
        }
        return match rank_of(ranks, piece) {
            Some(rank) => {
                tokens.push(rank);
                assert(tokens@ =~= bpe_encode(table, piece@));
                Some(tokens)
            },
            None => None,
        };
    }
    if piece.len() >= 100 {
        return _byte_pair_merge_large(ranks, piece);
    }
    let merged = _byte_pair_merge(ranks, piece);
    let ghost bounds = starts(merged@);
    let mut i: usize = 0;
    while i < merged.len() - 1
        invariant
            table == rank_table(*ranks),
            split == bpe_split(table, piece@),
            bounds == starts(merged@),
            are_bounds(bounds, piece@.len() as int),
            split == parts_between(piece@, bounds),
            forall|k: int| 0 <= k < i ==> table.contains_key(#[trigger] split[k]),
            i <= merged@.len() - 1,
            tokens@ == ranks_of_parts(table, split).take(i as int),
        decreases merged@.len() - i,
    {
        assert(bounds[i as int] < bounds[i + 1] <= bounds.last());
        match rank_of(ranks, &piece[merged[i].0..merged[i + 1].0]) {
            Some(rank) => tokens.push(rank),
            None => {
                assert(!table.contains_key(split[i as int]));
                return None;
            },
        }
        assert(table.contains_key(split[i as int]));
        i += 1;
        assert(tokens@ =~= ranks_of_parts(table, split).take(i as int));
    }
    assert(tokens@ =~= bpe_encode(table, piece@));
    Some(tokens)
}

/// The tokens of `piece`, which has to be a byte string that can be encoded.
pub fn byte_pair_encode(piece: &[u8], ranks: &FxHashMap<Vec<u8>, Rank>) -> (tokens: Vec<Rank>)
    requires
        bpe_encodable(rank_table(*ranks), piece@),
    ensures
        tokens@ == bpe_encode(rank_table(*ranks), piece@),
{
    try_byte_pair_encode(piece, ranks).unwrap()
}

/// Cuts `piece` into the byte strings that its tokens stand for.
pub fn byte_pair_split<'a>(piece: &'a [u8], ranks: &FxHashMap<Vec<u8>, Rank>) -> (parts: Vec<
    &'a [u8],
>)
    requires
        piece@.len() > 1,
    ensures
        parts@.map_values(|part: &'a [u8]| part@) == bpe_split(rank_table(*ranks), piece@),
{
    let merged = _byte_pair_merge(ranks, piece);
    let ghost bounds = starts(merged@);
    let ghost split = bpe_split(rank_table(*ranks), piece@);
    let mut parts: Vec<&'a [u8]> = Vec::new();
    let mut i: usize = 0;
    while i < merged.len() - 1
        invariant
            bounds == starts(merged@),
            are_bounds(bounds, piece@.len() as int),
            split == parts_between(piece@, bounds),
            i <= merged@.len() - 1,
            parts@.len() == i,
            forall|k: int| 0 <= k < i ==> (#[trigger] parts@[k])@ == split[k],
        decreases merged@.len() - i,
    {
        assert(bounds[i as int] < bounds[i + 1] <= bounds.last());
        parts.push(&piece[merged[i].0..merged[i + 1].0]);
        i += 1;
    }
    assert(parts@.map_values(|part: &'a [u8]| part@) =~= split);
    parts
}

} // verus!
