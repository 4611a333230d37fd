//! Collections of pairs: a map from each first key to the set of second
//! keys paired with it.
use vstd::prelude::*;
use crate::map::{KeyMap, KeySet, MapKey};

verus! {

/// A relation between keys of two kinds.
pub trait PairCollection<A: MapKey, B: MapKey> {
    /// Whether `a` is paired with `b`.
    spec fn paired(&self, a: A::V, b: B::V) -> bool;

    /// The collection is well formed.
    spec fn pairs_wf(&self) -> bool;

    /// Pairs `key1` with `key2`.
    fn insert_clone(&mut self, key1: &A, key2: &B)
        requires
            old(self).pairs_wf(),
        ensures
            final(self).pairs_wf(),
            forall|a: A::V, b: B::V| #[trigger] final(self).paired(a, b) == (old(self).paired(a, b)
                || (a == key1@ && b == key2@)),
    ;

    /// Unpairs `key1` from `key2`.
    fn remove(&mut self, key1: &A, key2: &B)
        requires
            old(self).pairs_wf(),
        ensures
            final(self).pairs_wf(),
            forall|a: A::V, b: B::V| #[trigger] final(self).paired(a, b) == (old(self).paired(a, b)
                && !(a == key1@ && b == key2@)),
    ;

    /// Pairs each key of `key1list` with `key2`.
    fn insert_list_key1(&mut self, key1list: &[A], key2: &B)
        requires
            old(self).pairs_wf(),
        ensures
            final(self).pairs_wf(),
            forall|a: A::V, b: B::V| #[trigger] final(self).paired(a, b) == (old(self).paired(a, b)
                || (b == key2@ && exists|i: int|
                0 <= i < key1list@.len() && (#[trigger] key1list@[i])@ == a)),
    {
        let mut i: usize = 0;
        while i < key1list.len()
            invariant
                i <= key1list@.len(),
                self.pairs_wf(),
                forall|a: A::V, b: B::V| #[trigger] self.paired(a, b) == (old(self).paired(a, b) || (
                b == key2@ && exists|j: int| 0 <= j < i && (#[trigger] key1list@[j])@ == a)),
            decreases key1list@.len() - i,
        {
            self.insert_clone(&key1list[i], key2);
            proof {
                assert forall|a: A::V, b: B::V| #[trigger] self.paired(a, b) == (old(self).paired(
                    a,
                    b,
                ) || (b == key2@ && exists|j: int| 0 <= j < i + 1 && (#[trigger] key1list@[j])@
                    == a)) by {
                    if b == key2@ && a == key1list@[i as int]@ {
                        assert(0 <= i < i + 1 && key1list@[i as int]@ == a);
                    }
                }
            }
            i = i + 1;
        }
    }

    /// Unpairs each key of `key1list` from `key2`.
    fn remove_list_key1(&mut self, key1list: &[A], key2: &B)
        requires
            old(self).pairs_wf(),
        ensures
            final(self).pairs_wf(),
            forall|a: A::V, b: B::V| #[trigger] final(self).paired(a, b) == (old(self).paired(a, b)
                && !(b == key2@ && exists|i: int|
                0 <= i < key1list@.len() && (#[trigger] key1list@[i])@ == a)),
    {
        let mut i: usize = 0;
        while i < key1list.len()
            invariant
                i <= key1list@.len(),
                self.pairs_wf(),
                forall|a: A::V, b: B::V| #[trigger] self.paired(a, b) == (old(self).paired(a, b) && !(
                b == key2@ && exists|j: int| 0 <= j < i && (#[trigger] key1list@[j])@ == a)),
            decreases key1list@.len() - i,
        {
            self.remove(&key1list[i], key2);
            proof {
                assert forall|a: A::V, b: B::V| #[trigger] self.paired(a, b) == (old(self).paired(
                    a,
                    b,
                ) && !(b == key2@ && exists|j: int| 0 <= j < i + 1 && (#[trigger] key1list@[j])@
                    == a)) by {
                    if b == key2@ && a == key1list@[i as int]@ {
                        assert(0 <= i < i + 1 && key1list@[i as int]@ == a);
                    }
                }
            }
            i = i + 1;
        }
    }
}

impl<A: MapKey, B: MapKey> PairCollection<A, B> for KeyMap<A, KeySet<B>> {
    open spec fn paired(&self, a: A::V, b: B::V) -> bool {
        self@.contains_key(a) && self@[a].contains(b)
    }

    /// No first key is kept with an empty set.
    open spec fn pairs_wf(&self) -> bool {
        &&& self.wf()
        &&& forall|a: A::V| #[trigger] self@.contains_key(a) ==> !self@[a].is_empty()
    }

    fn insert_clone(&mut self, key1: &A, key2: &B) {
        let mut set = match self.remove(key1) {
            Some(s) => s,
            None => KeySet::new(),
        };
        let _ = set.insert(key2.copy_key());
        proof {
            assert(set@.contains(key2@));
        }
        self.insert(key1.copy_key(), set);
    }

    fn remove(&mut self, key1: &A, key2: &B) {
        let ghost before = self@;
        match self.remove(key1) {
            Some(mut set) => {
                let _ = set.remove(key2);
                if set.len() != 0 {
                    proof {
                        assert(set@.contains(set.elems()[0]));
                    }
                    self.insert(key1.copy_key(), set);
                } else {
                    proof {
                        assert(set@ =~= vstd::set::Set::<B::V>::empty());
                    }
                }
            },
            None => {},
        }
    }
}

} // verus!
