//! A priority queue of candidate merges.
use vstd::multiset::Multiset;
use vstd::prelude::*;
use vstd::seq_lib::{to_multiset_insert, to_multiset_remove, group_to_multiset_ensures};

use crate::bpe::Rank;

verus! {

/// A candidate merge: the part that starts at `start` with the part behind it.
#[derive(Clone, Copy, Debug, PartialEq, Eq, Structural)]
pub struct Merge {
    pub start: usize,
    pub rank: Rank,
}

impl Merge {
    /// `self` comes out no later than `other`: by rank, then from left to right.
    pub open spec fn before_eq(self, other: Merge) -> bool {
        self.rank < other.rank || (self.rank == other.rank && self.start <= other.start)
    }

    /// Whether this merge is made before the other, or is the same.
    fn is_before_eq(&self, other: &Merge) -> (r: bool)
        ensures
            r == self.before_eq(*other),
    {
        self.rank < other.rank || (self.rank == other.rank && self.start <= other.start)
    }
}

/// A binary heap of candidate merges, the first one at the root.
pub struct MergeHeap {
    items: Vec<Merge>,
}

/// The parent of position `i` in a binary heap.
spec fn parent(i: int) -> int {
    (i - 1) / 2
}

/// Every item comes no earlier than its parent, except perhaps the item at `hole`.
spec fn ordered_except(items: Seq<Merge>, hole: int) -> bool {
    forall|i: int|
        0 < i < items.len() && i != hole ==> items[parent(i)].before_eq(#[trigger] items[i])
}

/// Every child of `hole` comes no earlier than the parent of `hole`.
spec fn bridged(items: Seq<Merge>, hole: int) -> bool {
    forall|i: int|
        0 < i < items.len() && hole > 0 && parent(i) == hole ==> items[parent(hole)].before_eq(
            #[trigger] items[i],
        )
}

/// Every item comes no earlier than its parent, except perhaps the children of `hole`.
spec fn ordered_above(items: Seq<Merge>, hole: int) -> bool {
    forall|i: int|
        0 < i < items.len() && parent(i) != hole ==> items[parent(i)].before_eq(
            #[trigger] items[i],
        )
}

/// Replacing an item trades the old one for the new one.
proof fn lemma_update_multiset(s: Seq<Merge>, i: int, item: Merge)
    requires
        0 <= i < s.len(),
    ensures
        s.update(i, item).to_multiset() == s.to_multiset().remove(s[i]).insert(item),
{
    to_multiset_remove(s, i);
    to_multiset_insert(s.remove(i), i, item);
    assert(s.remove(i).insert(i, item) =~= s.update(i, item));
}

/// Swapping two items keeps what a sequence holds.
proof fn lemma_swap_multiset(s: Seq<Merge>, i: int, j: int)
    requires
        0 <= i < s.len(),
        0 <= j < s.len(),
        i != j,
    ensures
        s.update(i, s[j]).update(j, s[i]).to_multiset() == s.to_multiset(),
{
    broadcast use group_to_multiset_ensures;

    lemma_update_multiset(s, i, s[j]);
    lemma_update_multiset(s.update(i, s[j]), j, s[i]);
    assert(s.contains(s[i]));
    assert(s.contains(s[j]));
    assert(s.to_multiset().remove(s[i]).insert(s[j]).remove(s[j]).insert(s[i])
        =~= s.to_multiset());
}

/// The root of an ordered heap comes no later than any other item.
proof fn lemma_root_first(items: Seq<Merge>, i: int)
    requires
        ordered_except(items, 0),
        0 <= i < items.len(),
    ensures
        items[0].before_eq(items[i]),
    decreases i,
{
    if i > 0 {
        lemma_root_first(items, parent(i));
        assert(items[parent(i)].before_eq(items[i]));
    }
}

impl MergeHeap {
    /// The candidates that the queue holds.
    pub closed spec fn view(&self) -> Multiset<Merge> {
        self.items@.to_multiset()
    }

    /// Every item comes no earlier than its parent.
    pub closed spec fn wf(&self) -> bool {
        ordered_except(self.items@, 0)
    }

    /// An empty heap with room for `capacity` merges.
    pub fn with_capacity(capacity: usize) -> (heap: MergeHeap)
        ensures
            heap.wf(),
            heap@ == Multiset::<Merge>::empty(),
    {
        let heap = MergeHeap { items: Vec::with_capacity(capacity) };
        proof {
            broadcast use group_to_multiset_ensures;

            assert(heap.items@.to_multiset().len() == 0);
            assert(heap@ =~= Multiset::<Merge>::empty());
        }
        heap
    }

    /// Adds a candidate.
    pub fn push(&mut self, item: Merge)
        requires
            old(self).wf(),
        ensures
            final(self).wf(),
            final(self)@ == old(self)@.insert(item),
    {
        proof {
            broadcast use group_to_multiset_ensures;

        }
        self.items.push(item);
        let mut hole: usize = self.items.len() - 1;
        while hole > 0
            invariant
                hole < self.items.len(),
                ordered_except(self.items@, hole as int),
                bridged(self.items@, hole as int),
                self.items@.to_multiset() == old(self)@.insert(item),
            ensures
                ordered_except(self.items@, 0),
                self.items@.to_multiset() == old(self)@.insert(item),
            decreases hole,
        {
            let up = (hole - 1) / 2;
            let above = self.items[up];
            let here = self.items[hole];
            if above.is_before_eq(&here) {
                break;
            }
            proof {
                lemma_swap_multiset(self.items@, up as int, hole as int);
            }
            self.items.set(up, here);
            self.items.set(hole, above);
            hole = up;
        }
    }

    /// Moves the root down until every item comes no earlier than its parent.
    fn sink(&mut self)
        requires
            ordered_above(old(self).items@, 0),
        ensures
            final(self).wf(),
            final(self)@ == old(self)@,
    {
        let len = self.items.len();
        let mut hole: usize = 0;
        while hole < len / 2
            invariant
                len == self.items.len(),
                hole < len || len == 0,
                ordered_above(self.items@, hole as int),
                bridged(self.items@, hole as int),
                self.items@.to_multiset() == old(self)@,
            ensures
                ordered_except(self.items@, 0),
                self.items@.to_multiset() == old(self)@,
            decreases len - hole,
        {
            let left: usize = 2 * hole + 1;
            let mut child: usize = left;
            if left + 1 < len && !self.items[left].is_before_eq(&self.items[left + 1]) {
                child = left + 1;
            }
            let here = self.items[hole];
            let below = self.items[child];
            assert(forall|i: int| 0 < i < len && parent(i) == hole ==> i == left || i == left + 1);
            if here.is_before_eq(&below) {
                break;
            }
            proof {
                lemma_swap_multiset(self.items@, hole as int, child as int);
            }
            self.items.set(hole, below);
            self.items.set(child, here);
            hole = child;
        }
    }

    /// Takes out the candidate that comes first.
    pub fn pop(&mut self) -> (first: Option<Merge>)
        requires
            old(self).wf(),
        ensures
            final(self).wf(),
            first is None <==> old(self)@.len() == 0,
            first matches Some(item) ==> {
                &&& old(self)@.count(item) > 0
                &&& final(self)@ == old(self)@.remove(item)
                &&& forall|other: Merge|
                    #![trigger old(self)@.count(other)]
                    old(self)@.count(other) > 0 ==> item.before_eq(other)
            },
            first is None ==> final(self)@ == old(self)@,
    {
        broadcast use group_to_multiset_ensures;

        let ghost start = self.items@;
        let len = self.items.len();
        if len == 0 {
            return None;
        }
        let first = self.items[0];
        proof {
            assert forall|other: Merge| #![trigger old(self)@.count(other)] old(self)@.count(other)
                > 0 implies first.before_eq(other) by {
                assert(start.contains(other));
                let k = choose|k: int| 0 <= k < start.len() && start[k] == other;
                lemma_root_first(start, k);
            }
            assert(start.contains(first));
        }
        let last = self.items[len - 1];
        self.items.pop();
        proof {
            assert(self.items@ =~= start.remove(len - 1));
            to_multiset_remove(start, len - 1);
        }
        if len > 1 {
            proof {
                lemma_update_multiset(self.items@, 0, last);
                assert(self.items@[0] == first);
                assert(self.items@.update(0, last).to_multiset() =~= old(self)@.remove(first));
            }
            self.items.set(0, last);
            self.sink();
        } else {
            assert(self.items@.to_multiset() =~= old(self)@.remove(first));
        }
        Some(first)
    }
}

} // verus!
