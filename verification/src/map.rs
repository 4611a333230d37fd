//! Maps and sets keyed by names and ids.
//!
//! Every name in the chat protocol (topics, namespaces, session ids, lattice
//! keys) is a string, and connections have numeric ids; these collections
//! hold their keys in insertion order and never hold a key twice.
use vstd::prelude::*;
use crate::text::str_eq;

verus! {

/// Values that carry a well-formedness condition of their own.
pub trait Valid {
    /// The value is well formed.
    spec fn valid(&self) -> bool;
}

/// Keys that can be compared and copied.
pub trait MapKey: View + Sized {
    /// Whether the two keys are the same.
    fn same(&self, other: &Self) -> (r: bool)
        ensures
            r == (self@ == other@),
    ;

    /// A copy of the key.
    fn copy_key(&self) -> (r: Self)
        ensures
            r@ == self@,
    ;
}

impl MapKey for String {
    fn same(&self, other: &Self) -> (r: bool) {
        str_eq(self.as_str(), other.as_str())
    }

    fn copy_key(&self) -> (r: Self) {
        self.clone()
    }
}

/// A map from keys to values.
#[derive(Debug)]
pub struct KeyMap<K, V> {
    entries: Vec<(K, V)>,
}

/// A set of keys.
#[derive(Debug)]
pub struct KeySet<K> {
    items: Vec<K>,
}

/// A map keyed by strings.
pub type StrMap<V> = KeyMap<String, V>;

/// A set of strings.
pub type StrSet = KeySet<String>;

/// The keys of the entries, in order.
pub open spec fn entry_keys<K: View, V>(e: Seq<(K, V)>) -> Seq<K::V> {
    e.map_values(|p: (K, V)| p.0@)
}

/// The views of the keys, in order.
pub open spec fn key_views<K: View>(e: Seq<K>) -> Seq<K::V> {
    e.map_values(|p: K| p@)
}

impl<K: MapKey, V: View> View for KeyMap<K, V> {
    type V = Map<K::V, V::V>;

    /// The map from each key to the view of its value.
    closed spec fn view(&self) -> Map<K::V, V::V> {
        Map::new(
            |k: K::V| entry_keys(self.entries@).contains(k),
            |k: K::V| self.entries@[entry_keys(self.entries@).index_of(k)].1@,
        )
    }
}

impl<K: MapKey, V: View + Valid> Valid for KeyMap<K, V> {
    open spec fn valid(&self) -> bool {
        self.wf()
    }
}

impl<K: MapKey, V: View + Valid> KeyMap<K, V> {
    /// No key is held twice, and every value is well formed.
    pub closed spec fn wf(&self) -> bool {
        &&& entry_keys(self.entries@).no_duplicates()
        &&& forall|i: int| 0 <= i < self.entries@.len() ==> (#[trigger] self.entries@[i]).1.valid()
    }

    /// The keys, in the order in which the map holds them.
    pub closed spec fn keys(&self) -> Seq<K::V> {
        entry_keys(self.entries@)
    }

    /// The value at position `i`, in the order of `keys`.
    pub closed spec fn value_at_spec(&self, i: int) -> V {
        self.entries@[i].1
    }

    /// Facts that hold of every map.
    pub proof fn lemma_wf(&self)
        requires
            self.wf(),
        ensures
            self.keys().no_duplicates(),
            self@.dom() == self.keys().to_set(),
            forall|i: int|
                0 <= i < self.keys().len() ==> #[trigger] self@[self.keys()[i]]
                    == self.value_at_spec(i)@,
            forall|i: int| 0 <= i < self.keys().len() ==> #[trigger] self.value_at_spec(i).valid(),
            forall|k: K::V|
                self@.contains_key(k) ==> exists|i: int|
                    0 <= i < self.keys().len() && #[trigger] self.keys()[i] == k,
    {
        assert(self@.dom() =~= self.keys().to_set());
        assert forall|i: int| 0 <= i < self.keys().len() implies #[trigger] self@[self.keys()[i]]
            == self.value_at_spec(i)@ by {
            let k = self.keys()[i];
            assert(self.keys().contains(k));
            let j = self.keys().index_of(k);
            assert(self.keys()[j] == k);
        }
        assert forall|k: K::V| self@.contains_key(k) implies exists|i: int|
            0 <= i < self.keys().len() && #[trigger] self.keys()[i] == k by {
            assert(self.keys().contains(k));
        }
    }

    /// An empty map.
    pub fn new() -> (r: Self)
        ensures
            r.wf(),
            r@ == Map::<K::V, V::V>::empty(),
            r.keys().len() == 0,
    {
        let r = KeyMap { entries: Vec::new() };
        assert(r@ =~= Map::<K::V, V::V>::empty());
        r
    }

    /// The number of keys.
    pub fn len(&self) -> (r: usize)
        ensures
            r == self.keys().len(),
    {
        self.entries.len()
    }

    /// The key at position `i`.
    pub fn key_at(&self, i: usize) -> (r: &K)
        requires
            i < self.keys().len(),
        ensures
            r@ == self.keys()[i as int],
            self@.contains_key(r@),
    {
        proof {
            assert(self.keys()[i as int] == self.entries@[i as int].0@);
            assert(self.keys().contains(self.keys()[i as int]));
        }
        &self.entries[i].0
    }

    /// The value at position `i`.
    pub fn value_at(&self, i: usize) -> (r: &V)
        requires
            self.wf(),
            i < self.keys().len(),
        ensures
            *r == self.value_at_spec(i as int),
            r@ == self@[self.keys()[i as int]],
            r.valid(),
    {
        proof {
            self.lemma_wf();
        }
        &self.entries[i].1
    }

    /// Whether the map holds no key.
    pub fn is_empty(&self) -> (r: bool)
        requires
            self.wf(),
        ensures
            r == (self@ == Map::<K::V, V::V>::empty()),
            r == (self@.dom() == vstd::set::Set::<K::V>::empty()),
    {
        proof {
            self.lemma_wf();
            if self.keys().len() > 0 {
                assert(self@.contains_key(self.keys()[0]));
            } else {
                assert(self@ =~= Map::<K::V, V::V>::empty());
            }
        }
        self.entries.len() == 0
    }

    /// Takes out one entry (the last one), if any.
    pub fn pop(&mut self) -> (r: Option<(K, V)>)
        requires
            old(self).wf(),
        ensures
            final(self).wf(),
            match r {
                Some((k, v)) => {
                    &&& old(self)@.contains_key(k@)
                    &&& old(self)@[k@] == v@
                    &&& v.valid()
                    &&& final(self)@ == old(self)@.remove(k@)
                    &&& final(self).keys().len() + 1 == old(self).keys().len()
                },
                None => old(self)@ == Map::<K::V, V::V>::empty() && final(self)@ == old(self)@,
            },
    {
        proof {
            self.lemma_wf();
        }
        let n = self.entries.len();
        if n == 0 {
            proof {
                assert(self@ =~= Map::<K::V, V::V>::empty());
            }
            return None;
        }
        let ghost old_keys = self.keys();
        let ghost old_view = self@;
        let (k, v) = self.entries.pop().unwrap();
        proof {
            let nk = self.keys();
            assert(nk =~= old_keys.drop_last());
            assert(old_keys[n - 1] == k@);
            assert(old_view[k@] == v@);
            assert forall|kk: K::V| #[trigger] nk.contains(kk) <==> (old_keys.contains(kk)
                && kk != k@) by {
                if nk.contains(kk) {
                    let j = nk.index_of(kk);
                    assert(old_keys[j] == kk);
                    assert(old_keys[j] != old_keys[n - 1]);
                }
                if old_keys.contains(kk) && kk != k@ {
                    let j = old_keys.index_of(kk);
                    assert(nk[j] == kk);
                }
            }
            assert forall|kk: K::V| #[trigger] nk.contains(kk) implies self@[kk] == old_view[kk] by {
                let j = nk.index_of(kk);
                assert(old_keys[j] == kk);
            }
            assert(self@ =~= old_view.remove(k@));
        }
        Some((k, v))
    }

    /// The position of `k`, if the map holds it.
    pub fn find(&self, k: &K) -> (r: Option<usize>)
        ensures
            r matches Some(i) ==> i < self.keys().len() && self.keys()[i as int] == k@,
            r is None ==> !self@.contains_key(k@),
    {
        let mut i: usize = 0;
        while i < self.entries.len()
            invariant
                i <= self.entries@.len(),
                forall|j: int| 0 <= j < i ==> #[trigger] self.keys()[j] != k@,
            decreases self.entries.len() - i,
        {
            if self.entries[i].0.same(k) {
                return Some(i);
            }
            i = i + 1;
        }
        proof {
            if self.keys().contains(k@) {
                let j = self.keys().index_of(k@);
                assert(self.keys()[j] == k@);
            }
        }
        None
    }

    /// Whether the map holds `k`.
    pub fn contains_key(&self, k: &K) -> (r: bool)
        requires
            self.wf(),
        ensures
            r == self@.contains_key(k@),
    {
        proof {
            self.lemma_wf();
        }
        self.find(k).is_some()
    }

    /// The value stored under `k`.
    pub fn get(&self, k: &K) -> (r: Option<&V>)
        requires
            self.wf(),
        ensures
            r matches Some(v) ==> self@.contains_key(k@) && self@[k@] == v@ && v.valid(),
            r is None ==> !self@.contains_key(k@),
    {
        proof {
            self.lemma_wf();
        }
        match self.find(k) {
            Some(i) => Some(&self.entries[i].1),
            None => None,
        }
    }

    /// Removes `k`, giving back its value.
    pub fn remove(&mut self, k: &K) -> (r: Option<V>)
        requires
            old(self).wf(),
        ensures
            final(self).wf(),
            final(self)@ == old(self)@.remove(k@),
            r matches Some(v) ==> old(self)@.contains_key(k@) && old(self)@[k@] == v@ && v.valid(),
            r is None ==> !old(self)@.contains_key(k@),
    {
        proof {
            self.lemma_wf();
        }
        match self.find(k) {
            Some(i) => {
                let ghost old_keys = self.keys();
                let ghost old_view = self@;
                let (_, v) = self.entries.remove(i);
                proof {
                    let nk = self.keys();
                    assert(nk =~= old_keys.remove(i as int));
                    self.lemma_wf();
                    assert forall|kk: K::V| #[trigger] nk.contains(kk) <==> (old_keys.contains(
                        kk,
                    ) && kk != k@) by {
                        if nk.contains(kk) {
                            let j = nk.index_of(kk);
                            if j < i {
                                assert(old_keys[j] == kk);
                            } else {
                                assert(old_keys[j + 1] == kk);
                            }
                        }
                        if old_keys.contains(kk) && kk != k@ {
                            let j = old_keys.index_of(kk);
                            if j < i {
                                assert(nk[j] == kk);
                            } else {
                                assert(nk[j - 1] == kk);
                            }
                        }
                    }
                    assert forall|kk: K::V| #[trigger] nk.contains(kk) implies self@[kk]
                        == old_view[kk] by {
                        let j = nk.index_of(kk);
                        if j < i {
                            assert(old_keys[j] == kk);
                        } else {
                            assert(old_keys[j + 1] == kk);
                        }
                    }
                    assert(self@ =~= old_view.remove(k@));
                }
                Some(v)
            },
            None => {
                proof {
                    assert(self@ =~= self@.remove(k@));
                }
                None
            },
        }
    }

    /// Stores `v` under `k`, replacing what was there.
    pub fn insert(&mut self, k: K, v: V)
        requires
            old(self).wf(),
            v.valid(),
        ensures
            final(self).wf(),
            final(self)@ == old(self)@.insert(k@, v@),
    {
        let _ = self.remove(&k);
        let ghost mid_view = self@;
        let ghost mid_keys = self.keys();
        proof {
            self.lemma_wf();
            assert(!mid_view.contains_key(k@));
            assert(!mid_keys.to_set().contains(k@));
            assert(!mid_keys.contains(k@));
        }
        let ghost kv = k@;
        self.entries.push((k, v));
        proof {
            let nk = self.keys();
            assert(nk =~= mid_keys.push(kv));
            assert forall|kk: K::V| #[trigger] nk.contains(kk) implies self@[kk] == (
            if kk == kv {
                v@
            } else {
                mid_view[kk]
            }) by {
                self.lemma_wf();
                let j = nk.index_of(kk);
                if kk == kv {
                    assert(nk[nk.len() - 1] == kv);
                } else {
                    assert(j < mid_keys.len());
                    assert(mid_keys[j] == kk);
                    assert(mid_keys.contains(kk));
                }
            }
            assert forall|kk: K::V| #[trigger] nk.contains(kk) <==> (mid_keys.contains(kk)
                || kk == kv) by {
                if nk.contains(kk) && kk != kv {
                    let j = nk.index_of(kk);
                    assert(mid_keys[j] == kk);
                }
                if mid_keys.contains(kk) {
                    let j = mid_keys.index_of(kk);
                    assert(nk[j] == kk);
                }
                if kk == kv {
                    assert(nk[nk.len() - 1] == kv);
                }
            }
            assert(self@ =~= mid_view.insert(kv, v@));
        }
    }
}

impl<K: MapKey> View for KeySet<K> {
    type V = Set<K::V>;

    /// The set of strings.
    open spec fn view(&self) -> Set<K::V> {
        self.elems().to_set()
    }
}

impl<K: MapKey> Valid for KeySet<K> {
    open spec fn valid(&self) -> bool {
        self.wf()
    }
}

impl<K: MapKey> KeySet<K> {
    /// No string is held twice.
    pub closed spec fn wf(&self) -> bool {
        key_views(self.items@).no_duplicates()
    }

    /// The strings, in the order in which the set holds them.
    pub closed spec fn elems(&self) -> Seq<K::V> {
        key_views(self.items@)
    }


    /// An empty set.
    pub fn new() -> (r: KeySet<K>)
        ensures
            r.wf(),
            r@ == Set::<K::V>::empty(),
            r.elems().len() == 0,
    {
        let r = KeySet { items: Vec::new() };
        assert(r@ =~= Set::<K::V>::empty());
        r
    }

    /// The number of strings.
    pub fn len(&self) -> (r: usize)
        ensures
            r == self.elems().len(),
    {
        self.items.len()
    }

    /// No element is held twice.
    pub proof fn lemma_unique(&self)
        requires
            self.wf(),
        ensures
            self.elems().no_duplicates(),
    {
    }

    /// The size of the set is the number of its elements.
    pub proof fn lemma_len(&self)
        requires
            self.wf(),
        ensures
            self@.finite(),
            self@.len() == self.elems().len(),
            self@.is_empty() <==> self.elems().len() == 0,
    {
        self.elems().unique_seq_to_set();
        if self.elems().len() > 0 {
            assert(self@.contains(self.elems()[0]));
        }
    }

    /// Whether the set is empty.
    pub fn is_empty(&self) -> (r: bool)
        requires
            self.wf(),
        ensures
            r == self@.is_empty(),
            r == (self@ == Set::<K::V>::empty()),
    {
        proof {
            self.lemma_len();
            if self@.is_empty() {
                assert(self@ =~= Set::<K::V>::empty());
            }
        }
        self.items.len() == 0
    }

    /// The string at position `i`.
    pub fn item_at(&self, i: usize) -> (r: &K)
        requires
            i < self.elems().len(),
        ensures
            r@ == self.elems()[i as int],
            self@.contains(r@),
    {
        proof {
            assert(self.elems()[i as int] == self.items@[i as int]@);
            assert(self.elems().contains(self.elems()[i as int]));
        }
        &self.items[i]
    }

    /// Whether the set holds `k`.
    pub fn contains(&self, k: &K) -> (r: bool)
        ensures
            r == self@.contains(k@),
    {
        let mut i: usize = 0;
        while i < self.items.len()
            invariant
                i <= self.items@.len(),
                forall|j: int| 0 <= j < i ==> #[trigger] self.elems()[j] != k@,
            decreases self.items.len() - i,
        {
            if self.items[i].same(k) {
                proof {
                    assert(self.elems()[i as int] == k@);
                    assert(self.elems().contains(k@));
                }
                return true;
            }
            i = i + 1;
        }
        proof {
            if self.elems().contains(k@) {
                let j = self.elems().index_of(k@);
                assert(self.elems()[j] == k@);
            }
        }
        false
    }

    /// Adds `k`; true if it was not there before.
    pub fn insert(&mut self, k: K) -> (r: bool)
        requires
            old(self).wf(),
        ensures
            final(self).wf(),
            final(self)@ == old(self)@.insert(k@),
            r == !old(self)@.contains(k@),
    {
        if self.contains(&k) {
            proof {
                assert(self@ =~= self@.insert(k@));
            }
            return false;
        }
        let ghost old_e = self.elems();
        let ghost kv = k@;
        self.items.push(k);
        proof {
            assert(self.elems() =~= old_e.push(kv));
            assert(self@ =~= old_e.to_set().insert(kv)) by {
                assert forall|x: K::V| #[trigger] self.elems().contains(x) <==> (old_e.contains(x)
                    || x == kv) by {
                    if self.elems().contains(x) && x != kv {
                        let j = self.elems().index_of(x);
                        assert(old_e[j] == x);
                    }
                    if old_e.contains(x) {
                        let j = old_e.index_of(x);
                        assert(self.elems()[j] == x);
                    }
                    if x == kv {
                        assert(self.elems()[self.elems().len() - 1] == kv);
                    }
                }
            }
        }
        true
    }

    /// Removes `k`; true if it was there.
    pub fn remove(&mut self, k: &K) -> (r: bool)
        requires
            old(self).wf(),
        ensures
            final(self).wf(),
            final(self)@ == old(self)@.remove(k@),
            r == old(self)@.contains(k@),
    {
        let mut i: usize = 0;
        while i < self.items.len()
            invariant
                i <= self.items@.len(),
                self.items@ == old(self).items@,
                self.wf(),
                forall|j: int| 0 <= j < i ==> #[trigger] self.elems()[j] != k@,
            decreases self.items.len() - i,
        {
            if self.items[i].same(k) {
                let ghost old_e = self.elems();
                self.items.remove(i);
                proof {
                    let ne = self.elems();
                    assert(ne =~= old_e.remove(i as int));
                    assert(old_e.contains(k@)) by {
                        assert(old_e[i as int] == k@);
                    }
                    assert forall|x: K::V| #[trigger] ne.contains(x) <==> (old_e.contains(x)
                        && x != k@) by {
                        if ne.contains(x) {
                            let j = ne.index_of(x);
                            if j < i {
                                assert(old_e[j] == x);
                                assert(old_e[j] != old_e[i as int]);
                            } else {
                                assert(old_e[j + 1] == x);
                                assert(old_e[j + 1] != old_e[i as int]);
                            }
                        }
                        if old_e.contains(x) && x != k@ {
                            let j = old_e.index_of(x);
                            if j < i {
                                assert(ne[j] == x);
                            } else {
                                assert(ne[j - 1] == x);
                            }
                        }
                    }
                    assert(self@ =~= old_e.to_set().remove(k@));
                    assert(ne.no_duplicates()) by {
                        assert forall|a: int, b: int|
                            0 <= a < ne.len() && 0 <= b < ne.len() && a != b implies ne[a]
                            != ne[b] by {
                            let a2 = if a < i { a } else { a + 1 };
                            let b2 = if b < i { b } else { b + 1 };
                            assert(ne[a] == old_e[a2]);
                            assert(ne[b] == old_e[b2]);
                        }
                    }
                }
                return true;
            }
            i = i + 1;
        }
        proof {
            if self.elems().contains(k@) {
                let j = self.elems().index_of(k@);
                assert(self.elems()[j] == k@);
            }
            assert(self@ =~= self@.remove(k@));
        }
        false
    }

    /// Removes every string.
    pub fn clear(&mut self)
        ensures
            final(self).wf(),
            final(self)@ == Set::<K::V>::empty(),
    {
        self.items = Vec::new();
        assert(self@ =~= Set::<K::V>::empty());
    }

    /// A copy of the set.
    pub fn duplicate(&self) -> (r: KeySet<K>)
        requires
            self.wf(),
        ensures
            r.wf(),
            r@ == self@,
            r.elems() == self.elems(),
    {
        let mut items: Vec<K> = Vec::new();
        let mut i: usize = 0;
        while i < self.items.len()
            invariant
                i <= self.items@.len(),
                key_views(items@) =~= self.elems().take(i as int),
            decreases self.items.len() - i,
        {
            let s = self.items[i].copy_key();
            let ghost before = items@;
            items.push(s);
            proof {
                assert(items@ == before.push(s));
                assert(s@ == self.elems()[i as int]);
                assert(key_views(before.push(s)) =~= key_views(before).push(s@));
                assert(key_views(items@) =~= self.elems().take(i + 1));
            }
            i = i + 1;
        }
        proof {
            assert(self.elems().take(self.items@.len() as int) =~= self.elems());
        }
        KeySet { items }
    }
}

/// Values whose well-formedness can be checked at run time.
pub trait CheckValid: Valid {
    /// Whether the value is well formed.
    fn check_valid(&self) -> (r: bool)
        ensures
            r == self.valid(),
    ;
}

impl<K: MapKey, V: View + Valid + CheckValid> KeyMap<K, V> {
    /// Whether no key is held twice and every value is well formed.
    pub fn check_wf(&self) -> (r: bool)
        ensures
            r == self.wf(),
    {
        let n = self.entries.len();
        let ghost keys = entry_keys(self.entries@);
        let mut i: usize = 0;
        while i < n
            invariant
                n == self.entries@.len(),
                keys == entry_keys(self.entries@),
                i <= n,
                forall|a: int, b: int| 0 <= a < b < i ==> keys[a] != keys[b],
                forall|a: int| 0 <= a < i ==> (#[trigger] self.entries@[a]).1.valid(),
            decreases n - i,
        {
            if !self.entries[i].1.check_valid() {
                return false;
            }
            let mut j: usize = 0;
            while j < i
                invariant
                    n == self.entries@.len(),
                    keys == entry_keys(self.entries@),
                    i < n,
                    j <= i,
                    forall|a: int| 0 <= a < j ==> keys[a] != keys[i as int],
                decreases i - j,
            {
                if self.entries[j].0.same(&self.entries[i].0) {
                    proof {
                        assert(keys[j as int] == keys[i as int]);
                    }
                    return false;
                }
                j = j + 1;
            }
            i = i + 1;
        }
        true
    }
}

impl<K: MapKey, V: View + Valid + CheckValid> CheckValid for KeyMap<K, V> {
    fn check_valid(&self) -> (r: bool) {
        self.check_wf()
    }
}

impl<K: MapKey> KeySet<K> {
    /// Whether no element is held twice.
    pub fn check_wf(&self) -> (r: bool)
        ensures
            r == self.wf(),
    {
        let n = self.items.len();
        let ghost keys = key_views(self.items@);
        let mut i: usize = 0;
        while i < n
            invariant
                n == self.items@.len(),
                keys == key_views(self.items@),
                i <= n,
                forall|a: int, b: int| 0 <= a < b < i ==> keys[a] != keys[b],
            decreases n - i,
        {
            let mut j: usize = 0;
            while j < i
                invariant
                    n == self.items@.len(),
                    keys == key_views(self.items@),
                    i < n,
                    j <= i,
                    forall|a: int| 0 <= a < j ==> keys[a] != keys[i as int],
                decreases i - j,
            {
                if self.items[j].same(&self.items[i]) {
                    proof {
                        assert(keys[j as int] == keys[i as int]);
                    }
                    return false;
                }
                j = j + 1;
            }
            i = i + 1;
        }
        true
    }
}

} // verus!
