//! A set of token sequences.
use std::collections::HashMap;
use vstd::prelude::*;

use crate::bpe::Rank;

verus! {

broadcast use vstd::std_specs::hash::group_hash_axioms;

/// A set of token sequences. Sequences that end with the same token share a bucket, which
/// holds their places in the list.
pub struct SequenceSet {
    items: Vec<Vec<Rank>>,
    buckets: HashMap<Rank, Vec<usize>>,
}

/// The token sequences of a list, each by its tokens.
pub open spec fn sequences(list: Seq<Vec<Rank>>) -> Seq<Seq<Rank>> {
    Seq::new(list.len(), |i: int| list[i]@)
}

/// The bucket of a sequence: its last token.
spec fn bucket_of(sequence: Seq<Rank>) -> Rank {
    if sequence.len() > 0 {
        sequence.last()
    } else {
        0
    }
}

/// The bucket holds that place.
spec fn is_filed(buckets: Map<Rank, Vec<usize>>, bucket: Rank, place: int) -> bool {
    buckets.contains_key(bucket) && exists|k: int|
        0 <= k < buckets[bucket]@.len() && #[trigger] buckets[bucket]@[k] == place
}

/// The sequence at `place` is found in its bucket.
spec fn is_found(items: Seq<Vec<Rank>>, buckets: Map<Rank, Vec<usize>>, place: int) -> bool {
    is_filed(buckets, bucket_of(items[place]@), place)
}

/// Whether two sequences are the same.
fn same_tokens(a: &Vec<Rank>, b: &Vec<Rank>) -> (same: bool)
    ensures
        same == (a@ == b@),
{
    if a.len() != b.len() {
        return false;
    }
    let mut i: usize = 0;
    while i < a.len()
        invariant
            a@.len() == b@.len(),
            i <= a@.len(),
            forall|k: int| 0 <= k < i ==> a@[k] == b@[k],
        decreases a@.len() - i,
    {
        if a[i] != b[i] {
            return false;
        }
        i += 1;
    }
    assert(a@ =~= b@);
    true
}

impl SequenceSet {
    /// The list holds every sequence once, and every sequence is found in its bucket.
    pub closed spec fn wf(&self) -> bool {
        &&& sequences(self.items@).no_duplicates()
        &&& forall|place: int|
            0 <= place < self.items@.len() ==> #[trigger] is_found(
                self.items@,
                self.buckets@,
                place,
            )
    }

    /// The sequences in the set.
    pub closed spec fn view(&self) -> Set<Seq<Rank>> {
        sequences(self.items@).to_set()
    }

    /// An empty set.
    pub fn new() -> (set: SequenceSet)
        ensures
            set.wf(),
            set@ == Set::<Seq<Rank>>::empty(),
    {
        let set = SequenceSet { items: Vec::new(), buckets: HashMap::new() };
        assert(set@ =~= Set::<Seq<Rank>>::empty());
        set
    }

    /// Puts a sequence into the set.
    pub fn insert(&mut self, sequence: Vec<Rank>)
        requires
            old(self).wf(),
        ensures
            final(self).wf(),
            final(self)@ == old(self)@.insert(sequence@),
    {
        let ghost list = sequences(self.items@);
        let ghost items_before = self.items@;
        let ghost buckets_before = self.buckets@;
        let bucket: Rank = if sequence.len() > 0 {
            sequence[sequence.len() - 1]
        } else {
            0
        };
        let mut places: Vec<usize> = match self.buckets.remove(&bucket) {
            Some(places) => places,
            None => Vec::new(),
        };
        let ghost places_before = places@;
        let mut known = false;
        let mut k: usize = 0;
        while k < places.len() && !known
            invariant
                k <= places@.len(),
                items_before == self.items@,
                list == sequences(items_before),
                known ==> list.contains(sequence@),
                !known ==> forall|l: int|
                    0 <= l < k && (#[trigger] places@[l]) < items_before.len() ==> list[places@[l]
                        as int] != sequence@,
            decreases places@.len() - k,
        {
            let place = places[k];
            if place < self.items.len() && same_tokens(&self.items[place], &sequence) {
                assert(list[place as int] == sequence@);
                known = true;
            }
            k += 1;
        }
        let ghost added = sequence@;
        if !known {
            proof {
                assert forall|i: int| 0 <= i < list.len() implies list[i] != added by {
                    assert(is_found(items_before, buckets_before, i));
                    if list[i] == added {
                        assert(is_filed(buckets_before, bucket, i));
                        let l = choose|l: int|
                            0 <= l < buckets_before[bucket]@.len()
                                && #[trigger] buckets_before[bucket]@[l] == i;
                        assert(places@[l] == i);
                    }
                }
            }
            places.push(self.items.len());
            self.items.push(sequence);
        }
        let ghost places_after = places@;
        self.buckets.insert(bucket, places);
        proof {
            let after = sequences(self.items@);
            assert forall|place: int| 0 <= place < self.items@.len() implies #[trigger] is_found(
                self.items@,
                self.buckets@,
                place,
            ) by {
                let own = bucket_of(self.items@[place]@);
                if place < items_before.len() {
                    assert(self.items@[place] == items_before[place]);
                    assert(is_found(items_before, buckets_before, place));
                    let l = choose|l: int|
                        0 <= l < buckets_before[own]@.len()
                            && #[trigger] buckets_before[own]@[l] == place;
                    assert(self.buckets@[own]@[l] == place);
                } else {
                    assert(own == bucket);
                    assert(self.buckets@[own]@[places_after.len() - 1] == place);
                }
            }
            if known {
                assert(after =~= list);
                assert(after.to_set() =~= list.to_set().insert(added));
            } else {
                assert(after =~= list.push(added));
                assert forall|s: Seq<Rank>| after.to_set().contains(s) == list.to_set().insert(
                    added,
                ).contains(s) by {
                    if list.contains(s) {
                        let i = choose|i: int| 0 <= i < list.len() && list[i] == s;
                        assert(after[i] == s);
                    }
                    if s == added {
                        assert(after[list.len() as int] == s);
                    }
                }
                assert(after.to_set() =~= list.to_set().insert(added));
            }
        }
    }

    /// The sequences in the set, each of them once.
    pub fn into_list(self) -> (list: Vec<Vec<Rank>>)
        requires
            self.wf(),
        ensures
            sequences(list@).no_duplicates(),
            sequences(list@).to_set() == self@,
    {
        self.items
    }
}

} // verus!
