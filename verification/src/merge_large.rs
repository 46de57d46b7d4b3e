//! Byte pair encoding of long byte strings, with a priority queue of merges.
use rustc_hash::FxHashMap;
use vstd::multiset::Multiset;
use vstd::prelude::*;

use crate::bpe::Rank;
use crate::bpe::{
    are_bounds, bpe_encodable, bpe_encode, bpe_split, is_next_merge, merge_all, pair_rank,
    parts_between, ranks_of_parts, span_rank,
};
use crate::bpe::{
    lemma_all_bounds, lemma_merge_done, lemma_merge_drops_bound, lemma_merge_step,
    lemma_pair_rank_of_bounds,
};
use crate::merge_heap::{Merge, MergeHeap};
use crate::tables::{rank_of, rank_table};

verus! {

/// What is known of the part that starts at a position: where the part before it
/// starts, where it ends, where the part behind it ends (if there is one), the rank
/// of the pair of the two, and its own rank if it came of a merge.
///
/// The entries of positions at which no part starts any more are stale.
#[derive(Clone, Copy)]
struct State {
    prev: usize,
    end: usize,
    next_end: Option<usize>,
    next_rank: Rank,
    cur_rank: Rank,
}

/// The rank of the pair that starts at part `k`.
spec fn rank_behind(ranks: Map<Seq<u8>, Rank>, piece: Seq<u8>, bounds: Seq<int>, k: int) -> Rank {
    if k + 2 < bounds.len() {
        span_rank(ranks, piece, bounds[k], bounds[k + 2])
    } else {
        Rank::MAX
    }
}

/// The entry at the start of part `k` describes that part.
spec fn describes(
    ranks: Map<Seq<u8>, Rank>,
    piece: Seq<u8>,
    bounds: Seq<int>,
    k: int,
    entry: State,
) -> bool {
    &&& k > 0 ==> entry.prev == bounds[k - 1]
    &&& entry.end == bounds[k + 1]
    &&& entry.next_end == (if k + 2 < bounds.len() {
        Some(bounds[k + 2] as usize)
    } else {
        None
    })
    &&& entry.next_rank == rank_behind(ranks, piece, bounds, k)
    &&& entry.cur_rank != Rank::MAX ==> ranks.get(piece.subrange(bounds[k], bounds[k + 1])) == Some(
        entry.cur_rank,
    )
}

/// `state` describes the parts between `bounds`, and nothing can be merged at a
/// position at which no part starts.
spec fn linked(
    ranks: Map<Seq<u8>, Rank>,
    piece: Seq<u8>,
    state: Seq<State>,
    bounds: Seq<int>,
) -> bool {
    &&& state.len() == piece.len()
    &&& piece.len() <= usize::MAX
    &&& are_bounds(bounds, piece.len() as int)
    &&& forall|k: int|
        0 <= k < bounds.len() - 1 ==> #[trigger] describes(
            ranks,
            piece,
            bounds,
            k,
            state[bounds[k]],
        )
    &&& forall|x: int|
        0 <= x < state.len() && !bounds.contains(x) ==> (#[trigger] state[x]).next_rank
            == Rank::MAX
}

/// The candidate for the pair that starts at part `k`.
spec fn candidate(ranks: Map<Seq<u8>, Rank>, piece: Seq<u8>, bounds: Seq<int>, k: int) -> Merge {
    Merge {
        start: bounds[k] as usize,
        rank: rank_behind(ranks, piece, bounds, k),
    }
}

/// Every pair that can be merged is in the queue, except perhaps that at part `hole`,
/// and every candidate starts within the byte string.
spec fn queued(
    ranks: Map<Seq<u8>, Rank>,
    piece: Seq<u8>,
    heap: Multiset<Merge>,
    bounds: Seq<int>,
    hole: int,
) -> bool {
    &&& forall|k: int|
        0 <= k < bounds.len() - 1 && k != hole && rank_behind(ranks, piece, bounds, k) != Rank::MAX
            ==> heap.count(#[trigger] candidate(ranks, piece, bounds, k)) > 0
    &&& forall|m: Merge| #[trigger] heap.count(m) > 0 ==> m.start < piece.len()
}

/// Records that the part behind the one at `start` ends at `next_end`, and queues the
/// merge of the two where it has a rank.
fn potential_merge(
    ranks: &FxHashMap<Vec<u8>, Rank>,
    piece: &[u8],
    state: &mut Vec<State>,
    heap: &mut MergeHeap,
    start: usize,
    next_end: Option<usize>,
)
    requires
        old(heap).wf(),
        start < old(state)@.len(),
        next_end matches Some(end) ==> start <= end <= piece@.len(),
    ensures
        final(heap).wf(),
        final(state)@.len() == old(state)@.len(),
        forall|x: int|
            0 <= x < old(state)@.len() && x != start ==> #[trigger] final(state)@[x] == old(
                state,
            )@[x],
        final(state)@[start as int] == (State {
            next_end,
            next_rank: (match next_end {
                Some(end) => span_rank(
                    rank_table(*ranks),
                    piece@,
                    start as int,
                    end as int,
                ),
                None => Rank::MAX,
            }),
            ..old(state)@[start as int]
        }),
        forall|m: Merge| #[trigger]
            final(heap)@.count(m) > 0 ==> old(heap)@.count(m) > 0 || m.start == start,
        forall|m: Merge| old(heap)@.count(m) > 0 ==> #[trigger] final(heap)@.count(m) > 0,
        final(state)@[start as int].next_rank != Rank::MAX ==> final(heap)@.count(
            (Merge { start, rank: final(state)@[start as int].next_rank }),
        ) > 0,
{
    let entry = state[start];
    // The old merge is invalid in any case.
    let mut next_rank = Rank::MAX;
    if let Some(end) = next_end {
        if let Some(rank) = rank_of(ranks, &piece[start..end]) {
            heap.push(Merge { start, rank });
            next_rank = rank;
        }
    }
    state.set(start, State { next_end, next_rank, ..entry });
}

/// Merges the part `i` with the one behind it.
fn merge_parts(
    ranks: &FxHashMap<Vec<u8>, Rank>,
    piece: &[u8],
    state: &mut Vec<State>,
    heap: &mut MergeHeap,
    left_start: usize,
    Ghost(bounds): Ghost<Seq<int>>,
    Ghost(i): Ghost<int>,
)
    requires
        old(heap).wf(),
        linked(rank_table(*ranks), piece@, old(state)@, bounds),
        queued(rank_table(*ranks), piece@, old(heap)@, bounds, i),
        0 <= i < bounds.len() - 2,
        left_start == bounds[i],
        rank_behind(rank_table(*ranks), piece@, bounds, i) != Rank::MAX,
    ensures
        final(heap).wf(),
        linked(rank_table(*ranks), piece@, final(state)@, bounds.remove(i + 1)),
        queued(rank_table(*ranks), piece@, final(heap)@, bounds.remove(i + 1), -1),
{
    let ghost table = rank_table(*ranks);
    let ghost before = state@;
    let ghost queue = heap@;
    let ghost fewer = bounds.remove(i + 1);
    proof {
        assert(describes(table, piece@, bounds, i, before[bounds[i]]));
        assert(describes(table, piece@, bounds, i + 1, before[bounds[i + 1]]));
        assert(bounds[i] < bounds[i + 1] < bounds[i + 2] <= bounds.last());
    }
    let left = state[left_start];
    let right_start = left.end;
    let right = state[right_start];
    let right_end = right.end;
    // Merge left and right into a single part.
    state.set(left_start, State { cur_rank: left.next_rank, end: right_end, ..left });
    potential_merge(ranks, piece, state, heap, left_start, right.next_end);
    if right_end < state.len() {
        let behind = state[right_end];
        state.set(right_end, State { prev: left_start, ..behind });
    }
    // Update the merge that ends at `left_start`.
    if left_start > 0 {
        assert(i > 0);
        assert(bounds[i - 1] < bounds[i]);
        let prev_start = state[left_start].prev;
        potential_merge(ranks, piece, state, heap, prev_start, Some(right_end));
    }
    // No part starts at `right_start` any more: its candidates are ignored from now on.
    let gone = state[right_start];
    state.set(right_start, State { next_rank: Rank::MAX, ..gone });
    proof {
        lemma_linked_after_merge(table, piece@, before, state@, bounds, i);
        lemma_queued_after_merge(table, piece@, state@, queue, heap@, bounds, i);
    }
}

/// `after` differs from `before` by the changes that merging the parts `i` and `i + 1`
/// makes: at the two parts, the one behind them and the one before them.
spec fn after_merge(
    ranks: Map<Seq<u8>, Rank>,
    piece: Seq<u8>,
    before: Seq<State>,
    after: Seq<State>,
    bounds: Seq<int>,
    i: int,
) -> bool {
    &&& after.len() == before.len()
    &&& forall|x: int|
        0 <= x < before.len() && x != bounds[i] && x != bounds[i + 1] && x != bounds[i + 2] && (i
            > 0 ==> x != bounds[i - 1]) ==> #[trigger] after[x] == before[x]
    &&& after[bounds[i]] == (State {
        cur_rank: before[bounds[i]].next_rank,
        end: bounds[i + 2] as usize,
        next_end: before[bounds[i + 1]].next_end,
        next_rank: (match before[bounds[i + 1]].next_end {
            Some(end) => span_rank(ranks, piece, bounds[i], end as int),
            None => Rank::MAX,
        }),
        ..before[bounds[i]]
    })
    &&& after[bounds[i + 1]].next_rank == Rank::MAX
    &&& bounds[i + 2] < before.len() ==> after[bounds[i + 2]] == (State {
        prev: bounds[i] as usize,
        ..before[bounds[i + 2]]
    })
    &&& i > 0 ==> after[bounds[i - 1]] == (State {
        next_end: Some(bounds[i + 2] as usize),
        next_rank: span_rank(ranks, piece, bounds[i - 1], bounds[i + 2]),
        ..before[bounds[i - 1]]
    })
}

/// After the merge, the entry of each part describes it.
#[verifier::spinoff_prover]
proof fn lemma_describes_after_merge(
    ranks: Map<Seq<u8>, Rank>,
    piece: Seq<u8>,
    before: Seq<State>,
    after: Seq<State>,
    bounds: Seq<int>,
    i: int,
    k: int,
)
    requires
        linked(ranks, piece, before, bounds),
        0 <= i < bounds.len() - 2,
        rank_behind(ranks, piece, bounds, i) != Rank::MAX,
        after_merge(ranks, piece, before, after, bounds, i),
        0 <= k < bounds.len() - 2,
    ensures
        describes(ranks, piece, bounds.remove(i + 1), k, after[bounds.remove(i + 1)[k]]),
{
    let fewer = bounds.remove(i + 1);
    lemma_merge_drops_bound(piece, bounds, i);
    let old_k = if k <= i {
        k
    } else {
        k + 1
    };
    let old_entry = before[bounds[old_k]];
    assert(fewer[k] == bounds[old_k]);
    assert(describes(ranks, piece, bounds, old_k, old_entry));
    assert(describes(ranks, piece, bounds, i, before[bounds[i]]));
    assert(describes(ranks, piece, bounds, i + 1, before[bounds[i + 1]]));
    let entry = after[fewer[k]];
    if k < i - 1 {
        assert(bounds[k] < bounds[i - 1] < bounds[i] < bounds[i + 1] < bounds[i + 2]);
        assert(entry == old_entry);
        assert(fewer[k + 1] == bounds[k + 1] && fewer[k + 2] == bounds[k + 2]);
        assert(k > 0 ==> fewer[k - 1] == bounds[k - 1]);
    } else if k == i - 1 {
        assert(fewer[k + 1] == bounds[i] && fewer[k + 2] == bounds[i + 2]);
        assert(k > 0 ==> fewer[k - 1] == bounds[k - 1]);
    } else if k == i {
        assert(fewer[k + 1] == bounds[i + 2]);
        assert(k + 2 < fewer.len() ==> fewer[k + 2] == bounds[i + 3]);
        assert(k > 0 ==> fewer[k - 1] == bounds[k - 1]);
    } else if k == i + 1 {
        assert(fewer[k + 1] == bounds[i + 3]);
        assert(bounds[i + 2] < bounds[i + 3]);
        assert(k + 2 < fewer.len() ==> fewer[k + 2] == bounds[i + 4]);
        assert(fewer[k - 1] == bounds[i]);
    } else {
        assert(bounds[i] < bounds[i + 1] < bounds[i + 2] < bounds[k + 1]);
        assert(i > 0 ==> bounds[i - 1] < bounds[i]);
        assert(entry == old_entry);
        assert(fewer[k + 1] == bounds[k + 2]);
        assert(k + 2 < fewer.len() ==> fewer[k + 2] == bounds[k + 3]);
        assert(fewer[k - 1] == bounds[k]);
    }
}

/// After the merge, the state describes the parts between the bounds that are left.
proof fn lemma_linked_after_merge(
    ranks: Map<Seq<u8>, Rank>,
    piece: Seq<u8>,
    before: Seq<State>,
    after: Seq<State>,
    bounds: Seq<int>,
    i: int,
)
    requires
        linked(ranks, piece, before, bounds),
        0 <= i < bounds.len() - 2,
        rank_behind(ranks, piece, bounds, i) != Rank::MAX,
        after_merge(ranks, piece, before, after, bounds, i),
    ensures
        linked(ranks, piece, after, bounds.remove(i + 1)),
{
    let fewer = bounds.remove(i + 1);
    lemma_merge_drops_bound(piece, bounds, i);
    assert forall|k: int| 0 <= k < fewer.len() - 1 implies #[trigger] describes(
        ranks,
        piece,
        fewer,
        k,
        after[fewer[k]],
    ) by {
        lemma_describes_after_merge(ranks, piece, before, after, bounds, i, k);
    }
    assert forall|x: int| 0 <= x < after.len() && !fewer.contains(x) implies (
    #[trigger] after[x]).next_rank == Rank::MAX by {
        if bounds.contains(x) {
            let k = choose|k: int| 0 <= k < bounds.len() && bounds[k] == x;
            if k < i + 1 {
                assert(fewer[k] == x);
            } else if k > i + 1 {
                assert(fewer[k - 1] == x);
            }
        }
    }
}

/// After the merge, every pair that can be merged is in the queue.
proof fn lemma_queued_after_merge(
    ranks: Map<Seq<u8>, Rank>,
    piece: Seq<u8>,
    after: Seq<State>,
    queue: Multiset<Merge>,
    new_queue: Multiset<Merge>,
    bounds: Seq<int>,
    i: int,
)
    requires
        0 <= i < bounds.len() - 2,
        are_bounds(bounds, piece.len() as int),
        linked(ranks, piece, after, bounds.remove(i + 1)),
        queued(ranks, piece, queue, bounds, i),
        forall|m: Merge| queue.count(m) > 0 ==> #[trigger] new_queue.count(m) > 0,
        forall|m: Merge| #[trigger]
            new_queue.count(m) > 0 ==> queue.count(m) > 0 || m.start < piece.len(),
        after[bounds[i]].next_rank != Rank::MAX ==> new_queue.count(
            (Merge { start: bounds[i] as usize, rank: after[bounds[i]].next_rank }),
        ) > 0,
        i > 0 && after[bounds[i - 1]].next_rank != Rank::MAX ==> new_queue.count(
            (Merge { start: bounds[i - 1] as usize, rank: after[bounds[i - 1]].next_rank }),
        ) > 0,
    ensures
        queued(ranks, piece, new_queue, bounds.remove(i + 1), -1),
{
    let fewer = bounds.remove(i + 1);
    lemma_merge_drops_bound(piece, bounds, i);
    assert forall|k: int|
        0 <= k < fewer.len() - 1 && k != -1 && rank_behind(ranks, piece, fewer, k)
            != Rank::MAX implies new_queue.count(#[trigger] candidate(ranks, piece, fewer, k))
        > 0 by {
        assert(describes(ranks, piece, fewer, k, after[fewer[k]]));
        if k < i - 1 || k > i {
            let old_k = if k <= i { k } else { k + 1 };
            assert(k < fewer.len() - 2);
            assert(candidate(ranks, piece, bounds, old_k) == candidate(ranks, piece, fewer, k));
        }
    }
}

/// A bound at every position: the parts are the single bytes.
spec fn all_bounds(len: nat) -> Seq<int> {
    Seq::new(len + 1, |i: int| i)
}

/// A candidate that comes before all others and is not stale belongs to the pair to
/// merge next.
proof fn lemma_first_is_next_merge(
    ranks: Map<Seq<u8>, Rank>,
    piece: Seq<u8>,
    state: Seq<State>,
    heap: Multiset<Merge>,
    bounds: Seq<int>,
    first: Merge,
) -> (i: int)
    requires
        linked(ranks, piece, state, bounds),
        queued(ranks, piece, heap, bounds, -1),
        heap.count(first) > 0,
        forall|other: Merge| #[trigger] heap.count(other) > 0 ==> first.before_eq(other),
        first.rank != Rank::MAX,
        first.rank == state[first.start as int].next_rank,
    ensures
        0 <= i < bounds.len() - 2,
        first.start == bounds[i],
        rank_behind(ranks, piece, bounds, i) == first.rank,
        is_next_merge(ranks, parts_between(piece, bounds), i),
{
    let x = first.start as int;
    let parts = parts_between(piece, bounds);
    assert(x < piece.len());
    assert(bounds.contains(x));
    let i = choose|i: int| 0 <= i < bounds.len() && bounds[i] == x;
    assert(describes(ranks, piece, bounds, i, state[bounds[i]]));
    lemma_pair_rank_of_bounds(ranks, piece, bounds, i);
    assert forall|j: int| 0 <= j < parts.len() - 1 implies {
        &&& pair_rank(ranks, parts, i) <= #[trigger] pair_rank(ranks, parts, j)
        &&& j < i ==> pair_rank(ranks, parts, i) < pair_rank(ranks, parts, j)
    } by {
        lemma_pair_rank_of_bounds(ranks, piece, bounds, j);
        if rank_behind(ranks, piece, bounds, j) != Rank::MAX {
            assert(heap.count(candidate(ranks, piece, bounds, j)) > 0);
            if j < i {
                assert(bounds[j] < bounds[i]);
            }
        }
    }
    i
}

/// The parts into which byte pair encoding cuts `piece`, each by its position.
fn merge_by_queue(ranks: &FxHashMap<Vec<u8>, Rank>, piece: &[u8]) -> (merged: (
    Vec<State>,
    Ghost<Seq<int>>,
))
    requires
        piece@.len() > 0,
    ensures
        linked(rank_table(*ranks), piece@, merged.0@, merged.1@),
        parts_between(piece@, merged.1@) == bpe_split(rank_table(*ranks), piece@),
{
    broadcast use vstd::multiset::group_multiset_axioms;

    let ghost table = rank_table(*ranks);
    let len = piece.len();
    let ghost mut bounds = all_bounds(piece@.len());
    let mut state: Vec<State> = Vec::with_capacity(len);
    let mut heap = MergeHeap::with_capacity(len);
    let mut i: usize = 0;
    while i < len
        invariant
            table == rank_table(*ranks),
            len == piece@.len(),
            i <= len,
            bounds == all_bounds(piece@.len()),
            state@.len() == i,
            heap.wf(),
            forall|k: int|
                0 <= k < i ==> #[trigger] describes(table, piece@, bounds, k, state@[bounds[k]]),
            forall|k: int|
                0 <= k < i && rank_behind(table, piece@, bounds, k) != Rank::MAX ==> heap@.count(
                    #[trigger] candidate(table, piece@, bounds, k),
                ) > 0,
            forall|m: Merge| #[trigger] heap@.count(m) > 0 ==> m.start < len,
        decreases len - i,
    {
        let mut next_end: Option<usize> = None;
        let mut next_rank = Rank::MAX;
        if i + 1 < len {
            next_end = Some(i + 2);
            if let Some(rank) = rank_of(ranks, &piece[i..i + 2]) {
                heap.push(Merge { start: i, rank });
                next_rank = rank;
            }
        }
        let ghost before = state@;
        state.push(
            State {
                prev: if i > 0 { i - 1 } else { usize::MAX },
                end: i + 1,
                next_end,
                next_rank,
                cur_rank: Rank::MAX,
            },
        );
        proof {
            assert forall|k: int| 0 <= k < i + 1 implies #[trigger] describes(
                table,
                piece@,
                bounds,
                k,
                state@[bounds[k]],
            ) by {
                if k < i {
                    assert(describes(table, piece@, bounds, k, before[bounds[k]]));
                }
            }
        }
        i += 1;
    }
    proof {
        lemma_all_bounds(piece@);
        assert forall|x: int| 0 <= x < state@.len() && !bounds.contains(x) implies (
        #[trigger] state@[x]).next_rank == Rank::MAX by {
            assert(bounds[x] == x);
        }
    }
    // Repeatedly take the first merge of the queue. A merge whose rank is no longer that
    // of the pair at its position has become invalid, and is dropped.
    loop
        invariant_except_break
            queued(table, piece@, heap@, bounds, -1),
        invariant
            table == rank_table(*ranks),
            heap.wf(),
            linked(table, piece@, state@, bounds),
            merge_all(table, parts_between(piece@, bounds)) == bpe_split(table, piece@),
        ensures
            forall|k: int|
                0 <= k < bounds.len() - 1 ==> #[trigger] rank_behind(table, piece@, bounds, k)
                    == Rank::MAX,
        decreases bounds.len(), heap@.len(),
    {
        let ghost queue = heap@;
        let left = match heap.pop() {
            Some(left) => left,
            None => {
                assert forall|k: int| 0 <= k < bounds.len() - 1 implies #[trigger] rank_behind(
                    table,
                    piece@,
                    bounds,
                    k,
                ) == Rank::MAX by {
                    if rank_behind(table, piece@, bounds, k) != Rank::MAX {
                        assert(queue.count(candidate(table, piece@, bounds, k)) > 0);
                    }
                }
                break;
            },
        };
        if left.rank == Rank::MAX {
            assert forall|k: int| 0 <= k < bounds.len() - 1 implies #[trigger] rank_behind(
                table,
                piece@,
                bounds,
                k,
            ) == Rank::MAX by {
                if rank_behind(table, piece@, bounds, k) != Rank::MAX {
                    assert(queue.count(candidate(table, piece@, bounds, k)) > 0);
                }
            }
            break;
        }
        if left.rank != state[left.start].next_rank {
            proof {
                assert forall|k: int|
                    0 <= k < bounds.len() - 1 && k != -1 && rank_behind(table, piece@, bounds, k)
                        != Rank::MAX implies heap@.count(
                    #[trigger] candidate(table, piece@, bounds, k),
                ) > 0 by {
                    assert(queue.count(candidate(table, piece@, bounds, k)) > 0);
                    assert(describes(table, piece@, bounds, k, state@[bounds[k]]));
                }
            }
            continue;
        }
        let ghost i = lemma_first_is_next_merge(table, piece@, state@, queue, bounds, left);
        proof {
            lemma_merge_step(table, parts_between(piece@, bounds), i);
            lemma_merge_drops_bound(piece@, bounds, i);
            assert forall|k: int|
                0 <= k < bounds.len() - 1 && k != i && rank_behind(table, piece@, bounds, k)
                    != Rank::MAX implies heap@.count(#[trigger] candidate(table, piece@, bounds, k))
                > 0 by {
                assert(queue.count(candidate(table, piece@, bounds, k)) > 0);
                assert(bounds[k] != bounds[i]);
            }
        }
        merge_parts(ranks, piece, &mut state, &mut heap, left.start, Ghost(bounds), Ghost(i));
        proof {
            bounds = bounds.remove(i + 1);
        }
    }
    proof {
        let split = parts_between(piece@, bounds);
        assert forall|k: int| 0 <= k < split.len() - 1 implies #[trigger] pair_rank(
            table,
            split,
            k,
        ) == Rank::MAX by {
            lemma_pair_rank_of_bounds(table, piece@, bounds, k);
            assert(rank_behind(table, piece@, bounds, k) == Rank::MAX);
        }
        lemma_merge_done(table, split);
    }
    (state, Ghost(bounds))
}

/// Encodes `piece` with a priority queue of merges: O(m log n) work for n bytes and m
/// merges. A part that has no rank in the end leaves `piece` without an encoding.
pub(crate) fn _byte_pair_merge_large(ranks: &FxHashMap<Vec<u8>, Rank>, piece: &[u8]) -> (tokens:
    Option<Vec<Rank>>)
    requires
        piece@.len() > 0,
    ensures
        tokens is Some <==> bpe_encodable(rank_table(*ranks), piece@),
        tokens is Some ==> tokens->0@ == bpe_encode(rank_table(*ranks), piece@),
{
    let ghost table = rank_table(*ranks);
    let (state, Ghost(bounds)) = merge_by_queue(ranks, piece);
    let ghost split = bpe_split(table, piece@);
    let mut tokens: Vec<Rank> = Vec::new();
    let mut i: usize = 0;
    while i < state.len()
        invariant
            table == rank_table(*ranks),
            split == bpe_split(table, piece@),
            linked(table, piece@, state@, bounds),
            split == parts_between(piece@, bounds),
            forall|k: int| 0 <= k < tokens@.len() ==> table.contains_key(#[trigger] split[k]),
            tokens@.len() < bounds.len(),
            i == bounds[tokens@.len() as int],
            tokens@ == ranks_of_parts(table, split).take(tokens@.len() as int),
        decreases state@.len() - i,
    {
        let ghost k = tokens@.len() as int;
        proof {
            assert(k < bounds.len() - 1);
            assert(describes(table, piece@, bounds, k, state@[bounds[k]]));
            assert(bounds[k] < bounds[k + 1] <= bounds.last());
        }
        let entry = state[i];
        if entry.cur_rank != Rank::MAX {
            tokens.push(entry.cur_rank);
        } else {
            match rank_of(ranks, &piece[i..entry.end]) {
                Some(rank) => tokens.push(rank),
                None => {
                    assert(!table.contains_key(split[k]));
                    return None;
                },
            }
        }
        assert(table.contains_key(split[k]));
        assert(tokens@ =~= ranks_of_parts(table, split).take(k + 1));
        i = entry.end;
    }
    proof {
        let k = tokens@.len() as int;
        if k < bounds.len() - 1 {
            assert(bounds[k] < bounds.last());
        }
        assert(tokens@ =~= bpe_encode(table, piece@));
    }
    Some(tokens)
}

} // verus!
