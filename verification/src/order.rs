//! The order of byte strings, and looking one up in a sorted list.
use vstd::prelude::*;

use crate::bpe::Rank;

verus! {

/// `a` comes before `b` in the order of a dictionary, or is the same.
pub open spec fn lex_le(a: Seq<u8>, b: Seq<u8>) -> bool
    decreases a.len(),
{
    if a.len() == 0 {
        true
    } else if b.len() == 0 {
        false
    } else if a[0] == b[0] {
        lex_le(a.skip(1), b.skip(1))
    } else {
        a[0] < b[0]
    }
}

/// The byte strings of a list, each by its bytes.
pub open spec fn byte_strings(list: Seq<Vec<u8>>) -> Seq<Seq<u8>> {
    Seq::new(list.len(), |i: int| list[i]@)
}

/// Tokens with their ranks, each by its bytes.
pub open spec fn ranked_tokens(list: Seq<(Vec<u8>, Rank)>) -> Seq<(Seq<u8>, Rank)> {
    Seq::new(list.len(), |i: int| (list[i].0@, list[i].1))
}

/// Each byte string comes before those behind it or is the same.
pub open spec fn is_sorted(list: Seq<Seq<u8>>) -> bool {
    forall|i: int, j: int| 0 <= i <= j < list.len() ==> lex_le(list[i], list[j])
}

/// The order carries over.
proof fn lemma_lex_le_transitive(a: Seq<u8>, b: Seq<u8>, c: Seq<u8>)
    requires
        lex_le(a, b),
        lex_le(b, c),
    ensures
        lex_le(a, c),
    decreases a.len(),
{
    if a.len() > 0 && a[0] == b[0] && b[0] == c[0] {
        lemma_lex_le_transitive(a.skip(1), b.skip(1), c.skip(1));
    }
}

/// A prefix comes before what it starts.
pub(crate) proof fn lemma_prefix_first(prefix: Seq<u8>, bytes: Seq<u8>)
    requires
        prefix.is_prefix_of(bytes),
    ensures
        lex_le(prefix, bytes),
    decreases prefix.len(),
{
    if prefix.len() > 0 {
        assert(bytes.subrange(0, prefix.len() as int)[0] == bytes[0]);
        assert(prefix.skip(1) =~= bytes.skip(1).subrange(0, prefix.len() - 1)) by {
            assert forall|i: int| 0 <= i < prefix.len() - 1 implies prefix.skip(1)[i]
                == bytes.skip(1)[i] by {
                assert(prefix[i + 1] == bytes.subrange(0, prefix.len() as int)[i + 1]);
            }
        }
        lemma_prefix_first(prefix.skip(1), bytes.skip(1));
    }
}

/// Behind a byte string that comes after a prefix and does not start with it, none
/// starts with it.
pub(crate) proof fn lemma_prefix_together(prefix: Seq<u8>, a: Seq<u8>, b: Seq<u8>)
    requires
        lex_le(prefix, a),
        lex_le(a, b),
        prefix.is_prefix_of(b),
    ensures
        prefix.is_prefix_of(a),
    decreases prefix.len(),
{
    if prefix.len() > 0 {
        assert(b.subrange(0, prefix.len() as int)[0] == b[0]);
        assert(a[0] == prefix[0]);
        assert(prefix.skip(1) =~= b.skip(1).subrange(0, prefix.len() - 1)) by {
            assert forall|i: int| 0 <= i < prefix.len() - 1 implies prefix.skip(1)[i] == b.skip(
                1,
            )[i] by {
                assert(prefix[i + 1] == b.subrange(0, prefix.len() as int)[i + 1]);
            }
        }
        lemma_prefix_together(prefix.skip(1), a.skip(1), b.skip(1));
        let rest = prefix.skip(1);
        assert(prefix =~= a.subrange(0, prefix.len() as int)) by {
            assert forall|i: int| 0 <= i < prefix.len() implies prefix[i] == a[i] by {
                if i > 0 {
                    assert(rest[i - 1] == a.skip(1).subrange(0, rest.len() as int)[i - 1]);
                }
            }
        }
    } else {
        assert(prefix =~= a.subrange(0, 0));
    }
}

/// Whether `a` comes strictly before `b`.
fn comes_before(a: &[u8], b: &[u8]) -> (before: bool)
    ensures
        before == !lex_le(b@, a@),
{
    let mut i: usize = 0;
    assert(a@.skip(0) =~= a@);
    assert(b@.skip(0) =~= b@);
    while i < a.len() && i < b.len() && a[i] == b[i]
        invariant
            i <= a@.len(),
            i <= b@.len(),
            lex_le(b@, a@) == lex_le(b@.skip(i as int), a@.skip(i as int)),
        decreases a@.len() - i,
    {
        assert(a@.skip(i as int).skip(1) =~= a@.skip(i + 1));
        assert(b@.skip(i as int).skip(1) =~= b@.skip(i + 1));
        i += 1;
    }
    if i == b.len() {
        false
    } else if i == a.len() {
        true
    } else {
        a[i] < b[i]
    }
}

/// Whether `bytes` starts with `prefix`.
pub(crate) fn starts_with(bytes: &[u8], prefix: &[u8]) -> (starts: bool)
    ensures
        starts == prefix@.is_prefix_of(bytes@),
{
    if bytes.len() < prefix.len() {
        return false;
    }
    let mut i: usize = 0;
    while i < prefix.len()
        invariant
            prefix@.len() <= bytes@.len(),
            i <= prefix@.len(),
            forall|k: int| 0 <= k < i ==> prefix@[k] == bytes@[k],
        decreases prefix@.len() - i,
    {
        if bytes[i] != prefix[i] {
            assert(bytes@.subrange(0, prefix@.len() as int)[i as int] != prefix@[i as int]);
            return false;
        }
        i += 1;
    }
    assert(prefix@ =~= bytes@.subrange(0, prefix@.len() as int));
    true
}

/// The number of byte strings in a sorted list that come strictly before `bytes`.
pub(crate) fn count_before(sorted: &Vec<Vec<u8>>, bytes: &[u8]) -> (count: usize)
    requires
        is_sorted(byte_strings(sorted@)),
    ensures
        count <= sorted@.len(),
        forall|i: int| 0 <= i < count ==> !lex_le(bytes@, #[trigger] byte_strings(sorted@)[i]),
        forall|i: int|
            count <= i < sorted@.len() ==> lex_le(bytes@, #[trigger] byte_strings(sorted@)[i]),
{
    let ghost list = byte_strings(sorted@);
    let mut low: usize = 0;
    let mut high: usize = sorted.len();
    while low < high
        invariant
            list == byte_strings(sorted@),
            is_sorted(list),
            low <= high <= sorted@.len(),
            forall|i: int| 0 <= i < low ==> !lex_le(bytes@, #[trigger] list[i]),
            forall|i: int| high <= i < sorted@.len() ==> lex_le(bytes@, #[trigger] list[i]),
        decreases high - low,
    {
        let middle = low + (high - low) / 2;
        let below = comes_before(sorted[middle].as_slice(), bytes);
        proof {
            let here = list[middle as int];
            assert forall|i: int| 0 <= i <= middle && below implies !lex_le(
                bytes@,
                #[trigger] list[i],
            ) by {
                if lex_le(bytes@, list[i]) {
                    lemma_lex_le_transitive(bytes@, list[i], here);
                }
            }
            assert forall|i: int| middle <= i < sorted@.len() && !below implies lex_le(
                bytes@,
                #[trigger] list[i],
            ) by {
                lemma_lex_le_transitive(bytes@, here, list[i]);
            }
        }
        if below {
            low = middle + 1;
        } else {
            high = middle;
        }
    }
    low
}

/// The range of the byte strings in a sorted list that start with `prefix`.
pub(crate) fn prefix_range(sorted: &Vec<Vec<u8>>, prefix: &[u8]) -> (range: (usize, usize))
    requires
        is_sorted(byte_strings(sorted@)),
    ensures
        range.0 <= range.1 <= sorted@.len(),
        forall|i: int|
            0 <= i < sorted@.len() ==> (range.0 <= i < range.1 <==> prefix@.is_prefix_of(
                #[trigger] byte_strings(sorted@)[i],
            )),
{
    let ghost list = byte_strings(sorted@);
    let start = count_before(sorted, prefix);
    let mut end: usize = start;
    while end < sorted.len() && starts_with(sorted[end].as_slice(), prefix)
        invariant
            list == byte_strings(sorted@),
            start <= end <= sorted@.len(),
            forall|i: int| start <= i < end ==> prefix@.is_prefix_of(#[trigger] list[i]),
        decreases sorted@.len() - end,
    {
        assert(prefix@.is_prefix_of(list[end as int]));
        end += 1;
    }
    proof {
        assert forall|i: int| 0 <= i < list.len() && prefix@.is_prefix_of(
            #[trigger] list[i],
        ) implies start <= i < end by {
            lemma_prefix_first(prefix@, list[i]);
            if i >= end {
                assert(lex_le(prefix@, list[end as int]));
                lemma_prefix_together(prefix@, list[end as int], list[i]);
            }
        }
    }
    (start, end)
}

} // verus!
