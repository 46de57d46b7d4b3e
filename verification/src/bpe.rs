//! The mathematical model of byte pair encoding.
//!
//! A byte string is cut into single bytes. Of all adjacent pairs whose
//! concatenation has a rank, the pair of least rank is merged, the leftmost one
//! where several have that rank. This is repeated until no pair can be merged.
use vstd::prelude::*;

verus! {

/// The number of a token, and its priority as a merge: lower merges first.
pub type Rank = u32;

/// The rank of the pair that starts at part `i`: that of the concatenation of the
/// parts `i` and `i + 1`. `Rank::MAX` stands for a pair that is never merged.
pub open spec fn pair_rank(ranks: Map<Seq<u8>, Rank>, parts: Seq<Seq<u8>>, i: int) -> Rank {
    if 0 <= i < parts.len() - 1 && ranks.contains_key(parts[i] + parts[i + 1]) {
        ranks[parts[i] + parts[i + 1]]
    } else {
        Rank::MAX
    }
}

/// The pair that starts at part `i` is the one to merge next: no pair has a lower
/// rank, and no pair to its left has the same.
pub open spec fn is_next_merge(
    ranks: Map<Seq<u8>, Rank>,
    parts: Seq<Seq<u8>>,
    i: int,
) -> bool {
    &&& 0 <= i < parts.len() - 1
    &&& pair_rank(ranks, parts, i) < Rank::MAX
    &&& forall|j: int|
        0 <= j < parts.len() - 1 ==> pair_rank(ranks, parts, i) <= #[trigger] pair_rank(
            ranks,
            parts,
            j,
        )
    &&& forall|j: int|
        0 <= j < i ==> pair_rank(ranks, parts, i) < #[trigger] pair_rank(ranks, parts, j)
}

/// The parts with the parts `i` and `i + 1` merged into one.
pub open spec fn merge_at(parts: Seq<Seq<u8>>, i: int) -> Seq<Seq<u8>> {
    parts.take(i).push(parts[i] + parts[i + 1]) + parts.skip(i + 2)
}

/// The parts that are left once every merge has been made.
pub open spec fn merge_all(ranks: Map<Seq<u8>, Rank>, parts: Seq<Seq<u8>>) -> Seq<Seq<u8>>
    decreases parts.len(),
{
    if exists|i: int| is_next_merge(ranks, parts, i) {
        let i = choose|i: int| is_next_merge(ranks, parts, i);
        merge_all(ranks, merge_at(parts, i))
    } else {
        parts
    }
}

/// A byte string as one part for each of its bytes.
pub open spec fn single_bytes(piece: Seq<u8>) -> Seq<Seq<u8>> {
    Seq::new(piece.len(), |i: int| seq![piece[i]])
}

/// The parts into which byte pair encoding cuts a byte string.
pub open spec fn bpe_split(ranks: Map<Seq<u8>, Rank>, piece: Seq<u8>) -> Seq<Seq<u8>> {
    merge_all(ranks, single_bytes(piece))
}

/// Byte pair encoding has an answer for `piece`: it is not empty, and every part
/// that is left in the end has a rank.
pub open spec fn bpe_encodable(ranks: Map<Seq<u8>, Rank>, piece: Seq<u8>) -> bool {
    &&& piece.len() > 0
    &&& forall|i: int|
        0 <= i < bpe_split(ranks, piece).len() ==> ranks.contains_key(
            #[trigger] bpe_split(ranks, piece)[i],
        )
}

/// The ranks of the given parts.
pub open spec fn ranks_of_parts(ranks: Map<Seq<u8>, Rank>, parts: Seq<Seq<u8>>) -> Seq<Rank> {
    Seq::new(parts.len(), |i: int| ranks[parts[i]])
}

/// The tokens of `piece`: the ranks of the parts that are left in the end.
pub open spec fn bpe_encode(ranks: Map<Seq<u8>, Rank>, piece: Seq<u8>) -> Seq<Rank> {
    ranks_of_parts(ranks, bpe_split(ranks, piece))
}

/// The concatenation of the given byte strings.
pub open spec fn concat(parts: Seq<Seq<u8>>) -> Seq<u8>
    decreases parts.len(),
{
    if parts.len() == 0 {
        Seq::empty()
    } else {
        concat(parts.drop_last()) + parts.last()
    }
}

/// At most one pair is the one to merge next.
pub proof fn lemma_next_merge_unique(
    ranks: Map<Seq<u8>, Rank>,
    parts: Seq<Seq<u8>>,
    i: int,
    j: int,
)
    requires
        is_next_merge(ranks, parts, i),
        is_next_merge(ranks, parts, j),
    ensures
        i == j,
{
    assert(pair_rank(ranks, parts, i) == pair_rank(ranks, parts, j));
}

/// Making the next merge leads to the same parts in the end.
pub(crate) proof fn lemma_merge_step(ranks: Map<Seq<u8>, Rank>, parts: Seq<Seq<u8>>, i: int)
    requires
        is_next_merge(ranks, parts, i),
    ensures
        merge_all(ranks, parts) == merge_all(ranks, merge_at(parts, i)),
{
    let k = choose|k: int| is_next_merge(ranks, parts, k);
    lemma_next_merge_unique(ranks, parts, i, k);
}

/// Where no pair has a rank, the parts stay as they are.
pub(crate) proof fn lemma_merge_done(ranks: Map<Seq<u8>, Rank>, parts: Seq<Seq<u8>>)
    requires
        forall|i: int|
            0 <= i < parts.len() - 1 ==> #[trigger] pair_rank(ranks, parts, i) == Rank::MAX,
    ensures
        merge_all(ranks, parts) == parts,
{
}

/// A single part is its own concatenation.
pub proof fn lemma_concat_one(part: Seq<u8>)
    ensures
        concat(seq![part]) == part,
{
    reveal_with_fuel(concat, 2);
    assert(seq![part].drop_last() =~= Seq::<Seq<u8>>::empty());
    assert(concat(seq![part]) =~= part);
}

/// Concatenation distributes over two lists of parts.
pub proof fn lemma_concat_add(a: Seq<Seq<u8>>, b: Seq<Seq<u8>>)
    ensures
        concat(a + b) == concat(a) + concat(b),
    decreases b.len(),
{
    if b.len() == 0 {
        assert(a + b =~= a);
    } else {
        lemma_concat_add(a, b.drop_last());
        assert((a + b).drop_last() =~= a + b.drop_last());
        assert((a + b).last() == b.last());
        assert(concat(a + b) =~= concat(a) + concat(b));
    }
}

/// Merging two neighbouring parts keeps the concatenation.
proof fn lemma_merge_at_concat(parts: Seq<Seq<u8>>, i: int)
    requires
        0 <= i < parts.len() - 1,
    ensures
        concat(merge_at(parts, i)) == concat(parts),
{
    let front = parts.take(i);
    let back = parts.skip(i + 2);
    let pair = seq![parts[i], parts[i + 1]];
    lemma_concat_add(front.push(parts[i] + parts[i + 1]), back);
    lemma_concat_add(front + pair, back);
    lemma_concat_add(front, pair);
    assert(front.push(parts[i] + parts[i + 1]).drop_last() =~= front);
    assert(pair.drop_last() =~= seq![parts[i]]);
    lemma_concat_one(parts[i]);
    assert(concat(pair) =~= parts[i] + parts[i + 1]);
    assert((front + pair) + back =~= parts);
    assert(concat(front) + (parts[i] + parts[i + 1]) =~= concat(front) + concat(pair));
}

/// Merging keeps the concatenation of the parts.
pub proof fn lemma_merge_all_concat(ranks: Map<Seq<u8>, Rank>, parts: Seq<Seq<u8>>)
    ensures
        concat(merge_all(ranks, parts)) == concat(parts),
    decreases parts.len(),
{
    if exists|i: int| is_next_merge(ranks, parts, i) {
        let i = choose|i: int| is_next_merge(ranks, parts, i);
        lemma_merge_at_concat(parts, i);
        lemma_merge_all_concat(ranks, merge_at(parts, i));
    }
}

/// The single bytes of a byte string make it up.
proof fn lemma_single_bytes_concat(piece: Seq<u8>)
    ensures
        concat(single_bytes(piece)) == piece,
    decreases piece.len(),
{
    if piece.len() > 0 {
        lemma_single_bytes_concat(piece.drop_last());
        assert(single_bytes(piece).drop_last() =~= single_bytes(piece.drop_last()));
        assert(piece.drop_last() + seq![piece.last()] =~= piece);
    } else {
        assert(concat(single_bytes(piece)) =~= piece);
    }
}

/// Splitting loses nothing: the parts of a byte string, put together again, are the
/// byte string.
pub proof fn law_split_concat(ranks: Map<Seq<u8>, Rank>, piece: Seq<u8>)
    ensures
        concat(bpe_split(ranks, piece)) == piece,
{
    lemma_merge_all_concat(ranks, single_bytes(piece));
    lemma_single_bytes_concat(piece);
}

/// Where each part is not empty, and is a single byte or has a rank, so it stays
/// through all merges.
proof fn lemma_merge_all_parts(ranks: Map<Seq<u8>, Rank>, parts: Seq<Seq<u8>>, k: int)
    requires
        forall|j: int|
            0 <= j < parts.len() ==> (#[trigger] parts[j]).len() == 1 || parts[j].len() > 1
                && ranks.contains_key(parts[j]),
        0 <= k < merge_all(ranks, parts).len(),
    ensures
        merge_all(ranks, parts)[k].len() == 1 || merge_all(ranks, parts)[k].len() > 1
            && ranks.contains_key(merge_all(ranks, parts)[k]),
    decreases parts.len(),
{
    if exists|i: int| is_next_merge(ranks, parts, i) {
        let i = choose|i: int| is_next_merge(ranks, parts, i);
        let next = merge_at(parts, i);
        assert forall|j: int| 0 <= j < next.len() implies (#[trigger] next[j]).len() == 1
            || next[j].len() > 1 && ranks.contains_key(next[j]) by {
            if j < i {
                assert(next[j] == parts[j]);
            } else if j > i {
                assert(next[j] == parts[j + 1]);
            } else {
                assert(next[j] == parts[i] + parts[i + 1]);
            }
        }
        lemma_merge_all_parts(ranks, next, k);
    }
}

/// No part is empty, and a part of more than one byte has a rank.
pub proof fn law_split_parts(ranks: Map<Seq<u8>, Rank>, piece: Seq<u8>, k: int)
    requires
        0 <= k < bpe_split(ranks, piece).len(),
    ensures
        bpe_split(ranks, piece)[k].len() > 0,
        bpe_split(ranks, piece)[k].len() > 1 ==> ranks.contains_key(bpe_split(ranks, piece)[k]),
{
    lemma_merge_all_parts(ranks, single_bytes(piece), k);
}

/// Where every byte of a byte string is a token, it can be encoded.
pub proof fn law_single_bytes_suffice(ranks: Map<Seq<u8>, Rank>, piece: Seq<u8>)
    requires
        piece.len() > 0,
        forall|i: int| 0 <= i < piece.len() ==> ranks.contains_key(seq![#[trigger] piece[i]]),
    ensures
        bpe_encodable(ranks, piece),
{
    let split = bpe_split(ranks, piece);
    assert forall|k: int| 0 <= k < split.len() implies ranks.contains_key(#[trigger] split[k]) by {
        law_split_parts(ranks, piece, k);
        if split[k].len() == 1 {
            law_split_concat(ranks, piece);
            lemma_part_is_subrange(split, k);
            let at = concat(split.take(k)).len() as int;
            assert(split[k] =~= seq![piece[at]]);
        }
    }
}

/// A part stands in the concatenation behind the parts before it.
pub proof fn lemma_part_is_subrange(parts: Seq<Seq<u8>>, k: int)
    requires
        0 <= k < parts.len(),
    ensures
        concat(parts.take(k)).len() + parts[k].len() <= concat(parts).len(),
        concat(parts).subrange(
            concat(parts.take(k)).len() as int,
            (concat(parts.take(k)).len() + parts[k].len()) as int,
        ) == parts[k],
{
    assert(parts =~= parts.take(k) + parts.skip(k));
    assert(parts.skip(k) =~= seq![parts[k]] + parts.skip(k + 1));
    lemma_concat_add(parts.take(k), parts.skip(k));
    lemma_concat_add(seq![parts[k]], parts.skip(k + 1));
    lemma_concat_one(parts[k]);
    let at = concat(parts.take(k)).len() as int;
    assert(concat(parts).subrange(at, at + parts[k].len()) =~= parts[k]);
}

/// Splitting ends only where nothing is left to merge: no two neighbouring parts make
/// up a byte string whose rank is below `Rank::MAX`.
pub proof fn law_split_settled(ranks: Map<Seq<u8>, Rank>, piece: Seq<u8>, i: int)
    ensures
        pair_rank(ranks, bpe_split(ranks, piece), i) == Rank::MAX,
{
    lemma_merge_all_settled(ranks, single_bytes(piece), i);
}

/// Once every merge has been made, no pair has a rank.
proof fn lemma_merge_all_settled(ranks: Map<Seq<u8>, Rank>, parts: Seq<Seq<u8>>, i: int)
    ensures
        pair_rank(ranks, merge_all(ranks, parts), i) == Rank::MAX,
    decreases parts.len(),
{
    if exists|k: int| is_next_merge(ranks, parts, k) {
        let k = choose|k: int| is_next_merge(ranks, parts, k);
        lemma_merge_all_settled(ranks, merge_at(parts, k), i);
    } else if pair_rank(ranks, parts, i) != Rank::MAX {
        let best = lemma_least_pair(ranks, parts, parts.len() - 1);
        assert(is_next_merge(ranks, parts, best));
    }
}

/// Among the first `len` pairs, where one of them has a rank, there is a leftmost one
/// of least rank.
proof fn lemma_least_pair(ranks: Map<Seq<u8>, Rank>, parts: Seq<Seq<u8>>, len: int) -> (best: int)
    requires
        0 <= len <= parts.len() - 1,
        exists|i: int| 0 <= i < len && #[trigger] pair_rank(ranks, parts, i) != Rank::MAX,
    ensures
        0 <= best < len,
        pair_rank(ranks, parts, best) < Rank::MAX,
        forall|j: int|
            0 <= j < len ==> pair_rank(ranks, parts, best) <= #[trigger] pair_rank(ranks, parts, j),
        forall|j: int|
            0 <= j < best ==> pair_rank(ranks, parts, best) < #[trigger] pair_rank(ranks, parts, j),
    decreases len,
{
    let last = len - 1;
    if exists|i: int| 0 <= i < last && #[trigger] pair_rank(ranks, parts, i) != Rank::MAX {
        let before = lemma_least_pair(ranks, parts, last);
        if pair_rank(ranks, parts, last) < pair_rank(ranks, parts, before) {
            last
        } else {
            before
        }
    } else {
        last
    }
}

/// Positions that cut a byte string of length `len` into parts.
pub(crate) open spec fn are_bounds(bounds: Seq<int>, len: int) -> bool {
    &&& bounds.len() >= 2
    &&& bounds[0] == 0
    &&& bounds.last() == len
    &&& forall|i: int, j: int| 0 <= i < j < bounds.len() ==> bounds[i] < bounds[j]
}

/// The parts between neighbouring bounds.
pub(crate) open spec fn parts_between(piece: Seq<u8>, bounds: Seq<int>) -> Seq<Seq<u8>> {
    Seq::new((bounds.len() - 1) as nat, |i: int| piece.subrange(bounds[i], bounds[i + 1]))
}

/// The rank of `piece[from..to]`, or `Rank::MAX` where it has none.
pub(crate) open spec fn span_rank(
    ranks: Map<Seq<u8>, Rank>,
    piece: Seq<u8>,
    from: int,
    to: int,
) -> Rank {
    match ranks.get(piece.subrange(from, to)) {
        Some(rank) => rank,
        None => Rank::MAX,
    }
}

/// A pair of neighbouring parts covers the bytes from the first bound to the third.
pub(crate) proof fn lemma_pair_rank_of_bounds(
    ranks: Map<Seq<u8>, Rank>,
    piece: Seq<u8>,
    bounds: Seq<int>,
    i: int,
)
    requires
        are_bounds(bounds, piece.len() as int),
        0 <= i < bounds.len() - 2,
    ensures
        pair_rank(ranks, parts_between(piece, bounds), i) == span_rank(
            ranks,
            piece,
            bounds[i],
            bounds[i + 2],
        ),
{
    let parts = parts_between(piece, bounds);
    assert(bounds[i] < bounds[i + 1] < bounds[i + 2] <= bounds.last());
    assert(0 <= bounds[i]);
    assert(parts[i] + parts[i + 1] =~= piece.subrange(bounds[i], bounds[i + 2]));
}

/// Merging two neighbouring parts drops the bound between them.
pub(crate) proof fn lemma_merge_drops_bound(piece: Seq<u8>, bounds: Seq<int>, i: int)
    requires
        are_bounds(bounds, piece.len() as int),
        0 <= i < bounds.len() - 2,
    ensures
        are_bounds(bounds.remove(i + 1), piece.len() as int),
        merge_at(parts_between(piece, bounds), i) == parts_between(piece, bounds.remove(i + 1)),
{
    let parts = parts_between(piece, bounds);
    let fewer = bounds.remove(i + 1);
    assert(bounds[i] < bounds[i + 1] < bounds[i + 2] <= bounds.last());
    assert(0 <= bounds[i]);
    assert(parts[i] + parts[i + 1] =~= piece.subrange(bounds[i], bounds[i + 2]));
    assert(merge_at(parts, i) =~= parts_between(piece, fewer));
}

/// With a bound at every position, the parts are the single bytes.
pub(crate) proof fn lemma_all_bounds(piece: Seq<u8>)
    requires
        piece.len() > 0,
    ensures
        are_bounds(Seq::new(piece.len() + 1, |i: int| i), piece.len() as int),
        parts_between(piece, Seq::new(piece.len() + 1, |i: int| i)) == single_bytes(piece),
{
    let bounds = Seq::new(piece.len() + 1, |i: int| i);
    assert(parts_between(piece, bounds) =~= single_bytes(piece)) by {
        assert forall|i: int| 0 <= i < piece.len() implies #[trigger] parts_between(
            piece,
            bounds,
        )[i] == single_bytes(piece)[i] by {
            assert(piece.subrange(i, i + 1) =~= seq![piece[i]]);
        }
    }
}

} // verus!
