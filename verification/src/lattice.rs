//! Lattices: replicated state made of counters and sets, merged by joins.
//!
//! A lattice namespace holds values shared by all sessions and values
//! private to each session, both keyed by room. Updates are deltas; merging a
//! delta never loses information and tells which parts really changed.
use vstd::prelude::*;
use crate::map::{StrMap, StrSet, Valid, CheckValid};

verus! {

/// A counter that only grows.
#[derive(Debug)]
pub struct Counter(pub u64);

/// A set that only grows.
#[derive(Debug)]
pub struct ItemSet(pub StrSet);

impl View for Counter {
    type V = u64;

    open spec fn view(&self) -> u64 {
        self.0
    }
}

impl Valid for Counter {
    open spec fn valid(&self) -> bool {
        true
    }
}

impl View for ItemSet {
    type V = vstd::set::Set<Seq<char>>;

    open spec fn view(&self) -> vstd::set::Set<Seq<char>> {
        self.0@
    }
}

impl Valid for ItemSet {
    open spec fn valid(&self) -> bool {
        self.0.wf()
    }
}

impl CheckValid for Counter {
    fn check_valid(&self) -> (r: bool) {
        true
    }
}

impl CheckValid for ItemSet {
    fn check_valid(&self) -> (r: bool) {
        self.0.check_wf()
    }
}

/// A value that merges by a join: the join covers both sides, and an update
/// reports whether it brought anything that was not covered already.
pub trait Crdt: View + Valid + Sized {
    /// `a` already holds all that `b` holds.
    spec fn covers(a: Self::V, b: Self::V) -> bool;

    /// The least value that covers both.
    spec fn join(a: Self::V, b: Self::V) -> Self::V;

    /// The join covers both sides, is the left side where that covers the
    /// right one already, and does not depend on the order of the sides.
    proof fn lemma_join(a: Self::V, b: Self::V)
        ensures
            Self::covers(Self::join(a, b), b),
            Self::covers(Self::join(a, b), a),
            Self::covers(a, b) ==> Self::join(a, b) == a,
            Self::covers(a, a),
            Self::join(a, b) == Self::join(b, a),
    ;

    /// Joining three values does not depend on how they are grouped.
    proof fn lemma_join_assoc(a: Self::V, b: Self::V, c: Self::V)
        ensures
            Self::join(Self::join(a, b), c) == Self::join(a, Self::join(b, c)),
    ;

    /// Merges `other` in; true when the value changed.
    fn update(&mut self, other: &Self) -> (changed: bool)
        requires
            old(self).valid(),
            other.valid(),
        ensures
            final(self).valid(),
            final(self)@ == Self::join(old(self)@, other@),
            changed == !Self::covers(old(self)@, other@),
    ;

    /// A copy of the value.
    fn duplicate(&self) -> (r: Self)
        requires
            self.valid(),
        ensures
            r.valid(),
            r@ == self@,
    ;
}

impl Crdt for Counter {
    open spec fn covers(a: u64, b: u64) -> bool {
        b <= a
    }

    open spec fn join(a: u64, b: u64) -> u64 {
        if a < b {
            b
        } else {
            a
        }
    }

    proof fn lemma_join(a: u64, b: u64) {
    }

    proof fn lemma_join_assoc(a: u64, b: u64, c: u64) {
    }

    fn update(&mut self, other: &Self) -> (changed: bool) {
        if self.0 < other.0 {
            self.0 = other.0;
            true
        } else {
            false
        }
    }

    fn duplicate(&self) -> (r: Self) {
        Counter(self.0)
    }
}

impl Crdt for ItemSet {
    open spec fn covers(a: vstd::set::Set<Seq<char>>, b: vstd::set::Set<Seq<char>>) -> bool {
        b.subset_of(a)
    }

    open spec fn join(
        a: vstd::set::Set<Seq<char>>,
        b: vstd::set::Set<Seq<char>>,
    ) -> vstd::set::Set<Seq<char>> {
        a.union(b)
    }

    proof fn lemma_join(a: vstd::set::Set<Seq<char>>, b: vstd::set::Set<Seq<char>>) {
        if b.subset_of(a) {
            assert(a.union(b) =~= a);
        }
        assert(a.union(b) =~= b.union(a));
    }

    proof fn lemma_join_assoc(
        a: vstd::set::Set<Seq<char>>,
        b: vstd::set::Set<Seq<char>>,
        c: vstd::set::Set<Seq<char>>,
    ) {
        assert(a.union(b).union(c) =~= a.union(b.union(c)));
    }

    fn update(&mut self, other: &Self) -> (changed: bool) {
        let ghost start = self@;
        let mut changed = false;
        let mut i: usize = 0;
        while i < other.0.len()
            invariant
                i <= other.0.elems().len(),
                self.0.wf(),
                self@ == start.union(other.0.elems().take(i as int).to_set()),
                changed == !other.0.elems().take(i as int).to_set().subset_of(start),
            decreases other.0.elems().len() - i,
        {
            let item = other.0.item_at(i);
            let ghost before = self@;
            let added = self.0.insert(item.clone());
            proof {
                let t = other.0.elems().take(i + 1);
                assert(t =~= other.0.elems().take(i as int).push(item@));
                other.0.elems().take(i as int).lemma_push_to_set_commute(item@);
                assert(t.to_set() =~= other.0.elems().take(i as int).to_set().insert(item@));
                assert(self@ =~= start.union(t.to_set()));
            }
            changed = changed || added;
            i = i + 1;
        }
        proof {
            assert(other.0.elems().take(other.0.elems().len() as int) =~= other.0.elems());
        }
        changed
    }

    fn duplicate(&self) -> (r: Self) {
        ItemSet(self.0.duplicate())
    }
}

/// The merge of `delta` into `orig`: keys of either, joined where both
/// hold one.
pub open spec fn crdt_merge<C: Crdt>(
    orig: Map<Seq<char>, C::V>,
    delta: Map<Seq<char>, C::V>,
) -> Map<Seq<char>, C::V> {
    Map::new(
        |k: Seq<char>| orig.contains_key(k) || delta.contains_key(k),
        |k: Seq<char>|
            if delta.contains_key(k) {
                if orig.contains_key(k) {
                    C::join(orig[k], delta[k])
                } else {
                    delta[k]
                }
            } else {
                orig[k]
            },
    )
}

/// The keys of `delta` that `orig` covers already.
pub open spec fn crdt_stale<C: Crdt>(
    orig: Map<Seq<char>, C::V>,
    delta: Map<Seq<char>, C::V>,
) -> vstd::set::Set<Seq<char>> {
    delta.dom().filter(|k: Seq<char>| orig.contains_key(k) && C::covers(orig[k], delta[k]))
}

/// The part of `delta` that `orig` does not cover.
pub open spec fn crdt_fresh<C: Crdt>(
    orig: Map<Seq<char>, C::V>,
    delta: Map<Seq<char>, C::V>,
) -> Map<Seq<char>, C::V> {
    delta.remove_keys(crdt_stale::<C>(orig, delta))
}

/// Merges `delta` into `original`, and drops from `delta` what `original`
/// covered already, so that `delta` keeps what really changed.
pub fn crdt_update<C: Crdt>(original: &mut StrMap<C>, delta: &mut StrMap<C>)
    requires
        old(original).wf(),
        old(delta).wf(),
    ensures
        final(original).wf(),
        final(delta).wf(),
        final(original)@ == crdt_merge::<C>(old(original)@, old(delta)@),
        final(delta)@ == crdt_fresh::<C>(old(original)@, old(delta)@),
{
    let ghost orig0 = original@;
    let ghost delta0 = delta@;
    let ghost keys = delta.keys();
    let mut del: Vec<String> = Vec::new();
    let mut i: usize = 0;
    proof {
        delta.lemma_wf();
        assert(keys.take(0).to_set() =~= vstd::set::Set::<Seq<char>>::empty());
        assert(original@ =~= crdt_merge::<C>(orig0, delta0.restrict(keys.take(0).to_set())));
        assert(crate::map::key_views(del@).to_set() =~= vstd::set::Set::<Seq<char>>::empty());
    }
    while i < delta.len()
        invariant
            i <= keys.len(),
            keys == delta.keys(),
            delta@ == delta0,
            delta.wf(),
            original.wf(),
            delta0.dom() == keys.to_set(),
            keys.no_duplicates(),
            original@ == crdt_merge::<C>(orig0, delta0.restrict(keys.take(i as int).to_set())),
            crate::map::key_views(del@).to_set() == crdt_stale::<C>(
                orig0,
                delta0.restrict(keys.take(i as int).to_set()),
            ),
        decreases keys.len() - i,
    {
        let key = delta.key_at(i);
        let d = delta.value_at(i);
        let ghost k = key@;
        let ghost pre = keys.take(i as int).to_set();
        let ghost post = keys.take(i + 1).to_set();
        proof {
            assert(keys.take(i + 1) =~= keys.take(i as int).push(k));
            keys.take(i as int).lemma_push_to_set_commute(k);
            assert(!pre.contains(k)) by {
                if pre.contains(k) {
                    let j = keys.take(i as int).index_of(k);
                    assert(keys[j] == keys[i as int]);
                }
            }
            assert(original@.contains_key(k) == orig0.contains_key(k));
            assert(orig0.contains_key(k) ==> original@[k] == orig0[k]);
        }
        let ghost stale_before = crate::map::key_views(del@).to_set();
        match original.remove(key) {
            Some(mut o) => {
                let changed = o.update(d);
                original.insert(key.clone(), o);
                if !changed {
                    let ghost before = del@;
                    del.push(key.clone());
                    proof {
                        assert(crate::map::key_views(del@) =~= crate::map::key_views(before).push(k));
                        crate::map::key_views(before).lemma_push_to_set_commute(k);
                    }
                }
            },
            None => {
                original.insert(key.clone(), d.duplicate());
            },
        }
        proof {
            let m1 = delta0.restrict(post);
            assert(original@ =~= crdt_merge::<C>(orig0, m1));
            assert(crate::map::key_views(del@).to_set() =~= crdt_stale::<C>(orig0, m1));
        }
        i = i + 1;
    }
    proof {
        assert(keys.take(keys.len() as int) =~= keys);
        assert(delta0.restrict(keys.to_set()) =~= delta0);
    }
    let ghost stale = crate::map::key_views(del@).to_set();
    let mut j: usize = 0;
    proof {
        assert(crate::map::key_views(del@).take(0).to_set() =~= vstd::set::Set::<Seq<char>>::empty());
        assert(delta@ =~= delta0.remove_keys(crate::map::key_views(del@).take(0).to_set()));
    }
    while j < del.len()
        invariant
            j <= del@.len(),
            delta.wf(),
            stale == crate::map::key_views(del@).to_set(),
            delta@ == delta0.remove_keys(crate::map::key_views(del@).take(j as int).to_set()),
        decreases del@.len() - j,
    {
        let _ = delta.remove(&del[j]);
        proof {
            let t = crate::map::key_views(del@);
            assert(t.take(j + 1) =~= t.take(j as int).push(del@[j as int]@));
            t.take(j as int).lemma_push_to_set_commute(del@[j as int]@);
            assert(delta@ =~= delta0.remove_keys(t.take(j + 1).to_set()));
        }
        j = j + 1;
    }
    proof {
        let t = crate::map::key_views(del@);
        assert(t.take(del@.len() as int) =~= t);
    }
}

/// The counters and sets of one room.
#[derive(Debug)]
pub struct Values {
    counters: StrMap<Counter>,
    sets: StrMap<ItemSet>,
}

/// The counters and sets of one room, by name.
pub struct ValuesView {
    pub counters: Map<Seq<char>, u64>,
    pub sets: Map<Seq<char>, vstd::set::Set<Seq<char>>>,
}

impl View for Values {
    type V = ValuesView;

    closed spec fn view(&self) -> ValuesView {
        ValuesView { counters: self.counters@, sets: self.sets@ }
    }
}

impl Valid for Values {
    closed spec fn valid(&self) -> bool {
        self.counters.wf() && self.sets.wf()
    }
}

impl CheckValid for Values {
    fn check_valid(&self) -> (r: bool) {
        self.counters.check_wf() && self.sets.check_wf()
    }
}

/// No counter and no set.
pub open spec fn empty_values() -> ValuesView {
    ValuesView { counters: Map::empty(), sets: Map::empty() }
}

/// The room holds nothing.
pub open spec fn values_empty(v: ValuesView) -> bool {
    v.counters.dom().is_empty() && v.sets.dom().is_empty()
}

/// The merge of `d` into `a`.
pub open spec fn values_merge(a: ValuesView, d: ValuesView) -> ValuesView {
    ValuesView {
        counters: crdt_merge::<Counter>(a.counters, d.counters),
        sets: crdt_merge::<ItemSet>(a.sets, d.sets),
    }
}

/// The part of `d` that `a` does not cover.
pub open spec fn values_fresh(a: ValuesView, d: ValuesView) -> ValuesView {
    ValuesView {
        counters: crdt_fresh::<Counter>(a.counters, d.counters),
        sets: crdt_fresh::<ItemSet>(a.sets, d.sets),
    }
}

/// `d`'s entries laid over `a`'s.
pub open spec fn values_overlay(a: ValuesView, d: ValuesView) -> ValuesView {
    ValuesView {
        counters: a.counters.union_prefer_right(d.counters),
        sets: a.sets.union_prefer_right(d.sets),
    }
}

/// Copies each entry of `src` into `dst`, replacing what `dst` held.
fn overlay_map<C: Crdt>(dst: &mut StrMap<C>, src: &StrMap<C>)
    requires
        old(dst).wf(),
        src.wf(),
    ensures
        final(dst).wf(),
        final(dst)@ == old(dst)@.union_prefer_right(src@),
{
    let ghost d0 = dst@;
    let ghost keys = src.keys();
    let mut i: usize = 0;
    proof {
        src.lemma_wf();
        assert(d0 =~= d0.union_prefer_right(src@.restrict(keys.take(0).to_set())));
    }
    while i < src.len()
        invariant
            i <= keys.len(),
            keys == src.keys(),
            src.wf(),
            dst.wf(),
            src@.dom() == keys.to_set(),
            dst@ == d0.union_prefer_right(src@.restrict(keys.take(i as int).to_set())),
        decreases keys.len() - i,
    {
        let k = src.key_at(i);
        let v = src.value_at(i);
        dst.insert(k.clone(), v.duplicate());
        proof {
            assert(keys.take(i + 1) =~= keys.take(i as int).push(k@));
            keys.take(i as int).lemma_push_to_set_commute(k@);
            assert(dst@ =~= d0.union_prefer_right(src@.restrict(keys.take(i + 1).to_set())));
        }
        i = i + 1;
    }
    proof {
        assert(keys.take(keys.len() as int) =~= keys);
        assert(src@.restrict(keys.to_set()) =~= src@);
    }
}

/// A copy of every entry of `src`.
fn duplicate_map<C: Crdt>(src: &StrMap<C>) -> (r: StrMap<C>)
    requires
        src.wf(),
    ensures
        r.wf(),
        r@ == src@,
{
    let mut r = StrMap::new();
    overlay_map(&mut r, src);
    proof {
        assert(Map::<Seq<char>, C::V>::empty().union_prefer_right(src@) =~= src@);
    }
    r
}

impl Values {
    /// The counters of the room, by name.
    pub(crate) fn counter_map(&self) -> (r: &StrMap<Counter>)
        ensures
            r@ == self@.counters,
            self.valid() ==> r.wf(),
    {
        &self.counters
    }

    /// The sets of the room, by name.
    pub(crate) fn set_map(&self) -> (r: &StrMap<ItemSet>)
        ensures
            r@ == self@.sets,
            self.valid() ==> r.wf(),
    {
        &self.sets
    }

    /// A room without counters or sets.
    pub fn new() -> (r: Values)
        ensures
            r.valid(),
            r@ == empty_values(),
    {
        Values { counters: StrMap::new(), sets: StrMap::new() }
    }

    /// Lays the counters and sets of `other` over this room's.
    pub fn update(&mut self, other: &Values)
        requires
            old(self).valid(),
            other.valid(),
        ensures
            final(self).valid(),
            final(self)@ == values_overlay(old(self)@, other@),
    {
        overlay_map(&mut self.counters, &other.counters);
        overlay_map(&mut self.sets, &other.sets);
    }

    /// Whether the room holds nothing.
    pub fn is_empty(&self) -> (r: bool)
        requires
            self.valid(),
        ensures
            r == values_empty(self@),
    {
        self.counters.is_empty() && self.sets.is_empty()
    }

    /// A copy of the room.
    pub fn duplicate(&self) -> (r: Values)
        requires
            self.valid(),
        ensures
            r.valid(),
            r@ == self@,
    {
        Values { counters: duplicate_map(&self.counters), sets: duplicate_map(&self.sets) }
    }

    /// Sets counter `name` (replacing a counter of that name).
    pub fn set_counter(&mut self, name: String, value: u64)
        requires
            old(self).valid(),
        ensures
            final(self).valid(),
            final(self)@ == (ValuesView {
                counters: old(self)@.counters.insert(name@, value),
                sets: old(self)@.sets,
            }),
    {
        self.counters.insert(name, Counter(value));
    }

    /// Sets set `name` (replacing a set of that name).
    pub fn set_items(&mut self, name: String, items: StrSet)
        requires
            old(self).valid(),
            items.wf(),
        ensures
            final(self).valid(),
            final(self)@ == (ValuesView {
                counters: old(self)@.counters,
                sets: old(self)@.sets.insert(name@, items@),
            }),
    {
        self.sets.insert(name, ItemSet(items));
    }

    /// The value of counter `name`.
    pub fn counter(&self, name: &String) -> (r: Option<u64>)
        requires
            self.valid(),
        ensures
            r matches Some(v) ==> self@.counters.contains_key(name@) && self@.counters[name@] == v,
            r is None ==> !self@.counters.contains_key(name@),
    {
        match self.counters.get(name) {
            Some(c) => Some(c.0),
            None => None,
        }
    }

    /// The number of counters and of sets.
    pub fn sizes(&self) -> (r: (usize, usize))
        requires
            self.valid(),
        ensures
            r.0 == self@.counters.dom().len(),
            r.1 == self@.sets.dom().len(),
    {
        proof {
            self.counters.lemma_wf();
            self.sets.lemma_wf();
            self.counters.keys().unique_seq_to_set();
            self.sets.keys().unique_seq_to_set();
        }
        (self.counters.len(), self.sets.len())
    }
}

/// The room `k` of `m`, or an empty room.
pub open spec fn room_or_empty(m: Map<Seq<char>, ValuesView>, k: Seq<char>) -> ValuesView {
    if m.contains_key(k) {
        m[k]
    } else {
        empty_values()
    }
}

/// The rooms of `state` after merging the rooms of `delta`.
pub open spec fn rooms_merge(
    state: Map<Seq<char>, ValuesView>,
    delta: Map<Seq<char>, ValuesView>,
) -> Map<Seq<char>, ValuesView> {
    Map::new(
        |k: Seq<char>| state.contains_key(k) || delta.contains_key(k),
        |k: Seq<char>|
            if delta.contains_key(k) {
                values_merge(room_or_empty(state, k), delta[k])
            } else {
                state[k]
            },
    )
}

/// The rooms of `delta` that bring something new to `state`, each cut down
/// to what is new.
pub open spec fn rooms_fresh(
    state: Map<Seq<char>, ValuesView>,
    delta: Map<Seq<char>, ValuesView>,
) -> Map<Seq<char>, ValuesView> {
    Map::new(
        |k: Seq<char>|
            delta.contains_key(k) && !values_empty(values_fresh(room_or_empty(state, k), delta[k])),
        |k: Seq<char>| values_fresh(room_or_empty(state, k), delta[k]),
    )
}

/// The rooms of session `s` in `m`, or none.
pub open spec fn session_or_empty(
    m: Map<Seq<char>, Map<Seq<char>, ValuesView>>,
    s: Seq<char>,
) -> Map<Seq<char>, ValuesView> {
    if m.contains_key(s) {
        m[s]
    } else {
        Map::empty()
    }
}

/// The private rooms of `state` after merging those of `delta`.
pub open spec fn private_merge(
    state: Map<Seq<char>, Map<Seq<char>, ValuesView>>,
    delta: Map<Seq<char>, Map<Seq<char>, ValuesView>>,
) -> Map<Seq<char>, Map<Seq<char>, ValuesView>> {
    Map::new(
        |s: Seq<char>| state.contains_key(s) || delta.contains_key(s),
        |s: Seq<char>|
            if delta.contains_key(s) {
                rooms_merge(session_or_empty(state, s), delta[s])
            } else {
                state[s]
            },
    )
}

/// For each session of `delta`, its rooms that bring something new.
pub open spec fn private_fresh(
    state: Map<Seq<char>, Map<Seq<char>, ValuesView>>,
    delta: Map<Seq<char>, Map<Seq<char>, ValuesView>>,
) -> Map<Seq<char>, Map<Seq<char>, ValuesView>> {
    Map::new(
        |s: Seq<char>| delta.contains_key(s),
        |s: Seq<char>| rooms_fresh(session_or_empty(state, s), delta[s]),
    )
}

/// Merges the rooms of `delta` into `state`; gives back the rooms of
/// `delta` cut down to what was new.
pub fn update_rooms(state: &mut StrMap<Values>, delta: StrMap<Values>) -> (r: StrMap<Values>)
    requires
        old(state).wf(),
        delta.wf(),
    ensures
        final(state).wf(),
        r.wf(),
        final(state)@ == rooms_merge(old(state)@, delta@),
        r@ == rooms_fresh(old(state)@, delta@),
{
    let ghost state0 = state@;
    let ghost delta0 = delta@;
    let mut delta = delta;
    let mut out: StrMap<Values> = StrMap::new();
    proof {
        let p = vstd::set::Set::<Seq<char>>::empty();
        assert(state@ =~= rooms_merge(state0, delta0.restrict(p)));
        assert(out@ =~= rooms_fresh(state0, delta0.restrict(p)));
        assert(delta@ =~= delta0.remove_keys(p));
    }
    loop
        invariant
            state.wf(),
            delta.wf(),
            out.wf(),
            delta@.dom().subset_of(delta0.dom()),
            forall|k: Seq<char>| #[trigger] delta@.contains_key(k) ==> delta@[k] == delta0[k],
            state@ == rooms_merge(state0, delta0.remove_keys(delta@.dom())),
            out@ == rooms_fresh(state0, delta0.remove_keys(delta@.dom())),
        ensures
            state.wf(),
            out.wf(),
            state@ == rooms_merge(state0, delta0),
            out@ == rooms_fresh(state0, delta0),
        decreases delta.keys().len(),
    {
        let ghost before = delta@;
        match delta.pop() {
            None => {
                proof {
                    assert(delta0.remove_keys(delta@.dom()) =~= delta0);
                }
                break ;
            },
            Some((room, mut vals)) => {
                let ghost k = room@;
                let ghost done_before = delta0.remove_keys(before.dom());
                let ghost done_after = delta0.remove_keys(delta@.dom());
                proof {
                    assert(done_after =~= done_before.insert(k, delta0[k]));
                    assert(!done_before.contains_key(k));
                }
                let mut mine = match state.remove(&room) {
                    Some(m) => m,
                    None => Values::new(),
                };
                proof {
                    assert(mine@ == room_or_empty(state0, k));
                }
                crdt_update(&mut mine.counters, &mut vals.counters);
                crdt_update(&mut mine.sets, &mut vals.sets);
                state.insert(room.clone(), mine);
                let empty = vals.is_empty();
                if !empty {
                    out.insert(room, vals);
                }
                proof {
                    assert(state@ =~= rooms_merge(state0, done_after));
                    assert(out@ =~= rooms_fresh(state0, done_after));
                }
            },
        }
    }
    out
}

/// Merges the private rooms of `delta` into `state`; gives back, for each
/// session of `delta`, its rooms cut down to what was new.
pub fn update_private(
    state: &mut StrMap<StrMap<Values>>,
    delta: StrMap<StrMap<Values>>,
) -> (r: StrMap<StrMap<Values>>)
    requires
        old(state).wf(),
        delta.wf(),
    ensures
        final(state).wf(),
        r.wf(),
        final(state)@ == private_merge(old(state)@, delta@),
        r@ == private_fresh(old(state)@, delta@),
{
    let ghost state0 = state@;
    let ghost delta0 = delta@;
    let mut delta = delta;
    let mut out: StrMap<StrMap<Values>> = StrMap::new();
    proof {
        let p = vstd::set::Set::<Seq<char>>::empty();
        assert(state@ =~= private_merge(state0, delta0.restrict(p)));
        assert(out@ =~= private_fresh(state0, delta0.restrict(p)));
    }
    loop
        invariant
            state.wf(),
            delta.wf(),
            out.wf(),
            delta@.dom().subset_of(delta0.dom()),
            forall|k: Seq<char>| #[trigger] delta@.contains_key(k) ==> delta@[k] == delta0[k],
            state@ == private_merge(state0, delta0.remove_keys(delta@.dom())),
            out@ == private_fresh(state0, delta0.remove_keys(delta@.dom())),
        ensures
            state.wf(),
            out.wf(),
            state@ == private_merge(state0, delta0),
            out@ == private_fresh(state0, delta0),
        decreases delta.keys().len(),
    {
        let ghost before = delta@;
        match delta.pop() {
            None => {
                proof {
                    assert(delta0.remove_keys(delta@.dom()) =~= delta0);
                }
                break ;
            },
            Some((sid, rooms)) => {
                let ghost k = sid@;
                let ghost done_before = delta0.remove_keys(before.dom());
                let ghost done_after = delta0.remove_keys(delta@.dom());
                proof {
                    assert(done_after =~= done_before.insert(k, delta0[k]));
                    assert(!done_before.contains_key(k));
                }
                let mut mysess = match state.remove(&sid) {
                    Some(m) => m,
                    None => StrMap::new(),
                };
                proof {
                    assert(mysess@ == session_or_empty(state0, k));
                }
                let fresh = update_rooms(&mut mysess, rooms);
                state.insert(sid.clone(), mysess);
                out.insert(sid, fresh);
                proof {
                    assert(state@ =~= private_merge(state0, done_after));
                    assert(out@ =~= private_fresh(state0, done_after));
                }
            },
        }
    }
    out
}

/// A change to a lattice namespace: shared rooms and private rooms of each
/// session.
#[derive(Debug)]
pub struct Delta {
    pub shared: StrMap<Values>,
    pub private: StrMap<StrMap<Values>>,
}

/// A delta by name.
pub struct DeltaView {
    pub shared: Map<Seq<char>, ValuesView>,
    pub private: Map<Seq<char>, Map<Seq<char>, ValuesView>>,
}

impl View for Delta {
    type V = DeltaView;

    open spec fn view(&self) -> DeltaView {
        DeltaView { shared: self.shared@, private: self.private@ }
    }
}

impl Valid for Delta {
    open spec fn valid(&self) -> bool {
        self.shared.wf() && self.private.wf()
    }
}

impl Delta {
    /// Whether the delta is well formed.
    pub fn is_valid(&self) -> (r: bool)
        ensures
            r == self.valid(),
    {
        self.shared.check_wf() && self.private.check_wf()
    }

    /// A delta that changes nothing.
    pub fn new() -> (r: Delta)
        ensures
            r.valid(),
            r@.shared == Map::<Seq<char>, ValuesView>::empty(),
            r@.private == Map::<Seq<char>, Map<Seq<char>, ValuesView>>::empty(),
    {
        Delta { shared: StrMap::new(), private: StrMap::new() }
    }
}

/// The data of one lattice namespace.
pub struct Lattice {
    pub shared: StrMap<Values>,
    pub private: StrMap<StrMap<Values>>,
    /// For each room, the sessions that have private data in it.
    pub subscriptions: StrMap<StrSet>,
}

/// A lattice by name.
pub struct LatticeView {
    pub shared: Map<Seq<char>, ValuesView>,
    pub private: Map<Seq<char>, Map<Seq<char>, ValuesView>>,
    pub subscriptions: Map<Seq<char>, vstd::set::Set<Seq<char>>>,
}

impl View for Lattice {
    type V = LatticeView;

    open spec fn view(&self) -> LatticeView {
        LatticeView {
            shared: self.shared@,
            private: self.private@,
            subscriptions: self.subscriptions@,
        }
    }
}

impl Valid for Lattice {
    open spec fn valid(&self) -> bool {
        self.shared.wf() && self.private.wf() && self.subscriptions.wf()
    }
}

/// The lattice after merging `d`.
pub open spec fn lattice_after(l: LatticeView, d: DeltaView) -> LatticeView {
    LatticeView {
        shared: rooms_merge(l.shared, d.shared),
        private: private_merge(l.private, d.private),
        subscriptions: l.subscriptions,
    }
}

/// The part of `d` that is new to `l`.
pub open spec fn delta_fresh(l: LatticeView, d: DeltaView) -> DeltaView {
    DeltaView {
        shared: rooms_fresh(l.shared, d.shared),
        private: private_fresh(l.private, d.private),
    }
}

impl Lattice {
    /// An empty lattice.
    pub fn new() -> (r: Lattice)
        ensures
            r.valid(),
            r@.shared == Map::<Seq<char>, ValuesView>::empty(),
            r@.private == Map::<Seq<char>, Map<Seq<char>, ValuesView>>::empty(),
            r@.subscriptions == Map::<Seq<char>, vstd::set::Set<Seq<char>>>::empty(),
    {
        Lattice { shared: StrMap::new(), private: StrMap::new(), subscriptions: StrMap::new() }
    }

    /// Updates lattice to be up to date with Delta and returns modified delta
    /// that contains only data that really changed and not out of date.
    pub fn update(&mut self, delta: Delta) -> (r: Delta)
        requires
            old(self).valid(),
            delta.valid(),
        ensures
            final(self).valid(),
            r.valid(),
            final(self)@ == lattice_after(old(self)@, delta@),
            r@ == delta_fresh(old(self)@, delta@),
    {
        let Delta { shared, private } = delta;
        let shared = update_rooms(&mut self.shared, shared);
        let private = update_private(&mut self.private, private);
        Delta { shared, private }
    }
}

/// Merging the same delta a second time changes nothing, and finds
/// nothing new.
pub proof fn lemma_crdt_merge_again<C: Crdt>(o: Map<Seq<char>, C::V>, d: Map<Seq<char>, C::V>)
    ensures
        crdt_merge::<C>(crdt_merge::<C>(o, d), d) == crdt_merge::<C>(o, d),
        crdt_fresh::<C>(crdt_merge::<C>(o, d), d).dom().is_empty(),
{
    let m = crdt_merge::<C>(o, d);
    assert forall|k: Seq<char>| #[trigger] d.contains_key(k) implies m.contains_key(k) && C::covers(
        m[k],
        d[k],
    ) && C::join(m[k], d[k]) == m[k] by {
        if o.contains_key(k) {
            C::lemma_join(o[k], d[k]);
            C::lemma_join(m[k], d[k]);
        } else {
            C::lemma_join(d[k], d[k]);
        }
    }
    assert(crdt_merge::<C>(m, d) =~= m);
    assert(crdt_fresh::<C>(m, d).dom() =~= vstd::set::Set::<Seq<char>>::empty());
}

/// Merging into a map keeps every key, with a value that covers the old one
/// and the delta's.
pub proof fn lemma_crdt_merge_covers<C: Crdt>(o: Map<Seq<char>, C::V>, d: Map<Seq<char>, C::V>)
    ensures
        forall|k: Seq<char>| #[trigger] o.contains_key(k) ==> crdt_merge::<C>(o, d).contains_key(k)
            && C::covers(crdt_merge::<C>(o, d)[k], o[k]),
        forall|k: Seq<char>| #[trigger] d.contains_key(k) ==> crdt_merge::<C>(o, d).contains_key(k)
            && C::covers(crdt_merge::<C>(o, d)[k], d[k]),
{
    assert forall|k: Seq<char>| #[trigger] o.contains_key(k) implies crdt_merge::<C>(
        o,
        d,
    ).contains_key(k) && C::covers(crdt_merge::<C>(o, d)[k], o[k]) by {
        if d.contains_key(k) {
            C::lemma_join(o[k], d[k]);
        } else {
            C::lemma_join(o[k], o[k]);
        }
    }
    assert forall|k: Seq<char>| #[trigger] d.contains_key(k) implies crdt_merge::<C>(
        o,
        d,
    ).contains_key(k) && C::covers(crdt_merge::<C>(o, d)[k], d[k]) by {
        if o.contains_key(k) {
            C::lemma_join(o[k], d[k]);
        } else {
            C::lemma_join(d[k], d[k]);
        }
    }
}

/// Merging only the fresh part of a delta gives the same map as merging
/// all of it.
pub proof fn lemma_crdt_fresh_suffices<C: Crdt>(o: Map<Seq<char>, C::V>, d: Map<Seq<char>, C::V>)
    ensures
        crdt_merge::<C>(o, crdt_fresh::<C>(o, d)) == crdt_merge::<C>(o, d),
{
    let f = crdt_fresh::<C>(o, d);
    assert forall|k: Seq<char>| #[trigger] d.contains_key(k) && !f.contains_key(k) implies
        o.contains_key(k) && C::join(o[k], d[k]) == o[k] by {
        C::lemma_join(o[k], d[k]);
    }
    assert(crdt_merge::<C>(o, f) =~= crdt_merge::<C>(o, d));
}

/// One room covers another: every counter and set of `b` is in `a`, at
/// least as large.
pub open spec fn values_cover(a: ValuesView, b: ValuesView) -> bool {
    &&& forall|k: Seq<char>| #[trigger] b.counters.contains_key(k) ==> a.counters.contains_key(k)
        && Counter::covers(a.counters[k], b.counters[k])
    &&& forall|k: Seq<char>| #[trigger] b.sets.contains_key(k) ==> a.sets.contains_key(k)
        && ItemSet::covers(a.sets[k], b.sets[k])
}

proof fn lemma_values_merge_again(a: ValuesView, d: ValuesView)
    ensures
        values_merge(values_merge(a, d), d) == values_merge(a, d),
        values_empty(values_fresh(values_merge(a, d), d)),
        values_cover(values_merge(a, d), a),
        values_cover(values_merge(a, d), d),
{
    lemma_crdt_merge_again::<Counter>(a.counters, d.counters);
    lemma_crdt_merge_again::<ItemSet>(a.sets, d.sets);
    lemma_crdt_merge_covers::<Counter>(a.counters, d.counters);
    lemma_crdt_merge_covers::<ItemSet>(a.sets, d.sets);
}

proof fn lemma_rooms_merge_again(s: Map<Seq<char>, ValuesView>, d: Map<Seq<char>, ValuesView>)
    ensures
        rooms_merge(rooms_merge(s, d), d) == rooms_merge(s, d),
        rooms_fresh(rooms_merge(s, d), d).dom().is_empty(),
{
    let m = rooms_merge(s, d);
    assert forall|k: Seq<char>| #[trigger] d.contains_key(k) implies values_merge(
        room_or_empty(m, k),
        d[k],
    ) == m[k] && values_empty(values_fresh(room_or_empty(m, k), d[k])) by {
        lemma_values_merge_again(room_or_empty(s, k), d[k]);
    }
    assert(rooms_merge(m, d) =~= m);
    assert(rooms_fresh(m, d).dom() =~= vstd::set::Set::<Seq<char>>::empty());
}

proof fn lemma_private_merge_again(
    s: Map<Seq<char>, Map<Seq<char>, ValuesView>>,
    d: Map<Seq<char>, Map<Seq<char>, ValuesView>>,
)
    ensures
        private_merge(private_merge(s, d), d) == private_merge(s, d),
        forall|k: Seq<char>| #[trigger] private_fresh(private_merge(s, d), d).contains_key(k)
            ==> private_fresh(private_merge(s, d), d)[k].dom().is_empty(),
{
    let m = private_merge(s, d);
    assert forall|k: Seq<char>| #[trigger] d.contains_key(k) implies rooms_merge(
        session_or_empty(m, k),
        d[k],
    ) == m[k] && rooms_fresh(session_or_empty(m, k), d[k]).dom().is_empty() by {
        lemma_rooms_merge_again(session_or_empty(s, k), d[k]);
    }
    assert(private_merge(m, d) =~= m);
}

/// Law: updating a lattice with the same delta twice leaves it as the first
/// update did, and the second update reports nothing as changed.
pub proof fn law_update_idempotent(l: LatticeView, d: DeltaView)
    ensures
        lattice_after(lattice_after(l, d), d) == lattice_after(l, d),
        delta_fresh(lattice_after(l, d), d).shared.dom().is_empty(),
        forall|k: Seq<char>| #[trigger] delta_fresh(lattice_after(l, d), d).private.contains_key(k)
            ==> delta_fresh(lattice_after(l, d), d).private[k].dom().is_empty(),
{
    lemma_rooms_merge_again(l.shared, d.shared);
    lemma_private_merge_again(l.private, d.private);
}

/// Law: an update loses nothing: every shared room of the lattice and of the
/// delta is still there afterwards, covering what it held before and what
/// the delta brought.
pub proof fn law_update_keeps_data(l: LatticeView, d: DeltaView)
    ensures
        forall|k: Seq<char>| #[trigger] l.shared.contains_key(k) ==> lattice_after(
            l,
            d,
        ).shared.contains_key(k) && values_cover(lattice_after(l, d).shared[k], l.shared[k]),
        forall|k: Seq<char>| #[trigger] d.shared.contains_key(k) ==> lattice_after(
            l,
            d,
        ).shared.contains_key(k) && values_cover(lattice_after(l, d).shared[k], d.shared[k]),
{
    assert forall|k: Seq<char>| #[trigger] l.shared.contains_key(k) implies lattice_after(
        l,
        d,
    ).shared.contains_key(k) && values_cover(lattice_after(l, d).shared[k], l.shared[k]) by {
        if d.shared.contains_key(k) {
            lemma_values_merge_again(l.shared[k], d.shared[k]);
        } else {
            lemma_values_cover_self(l.shared[k]);
        }
    }
    assert forall|k: Seq<char>| #[trigger] d.shared.contains_key(k) implies lattice_after(
        l,
        d,
    ).shared.contains_key(k) && values_cover(lattice_after(l, d).shared[k], d.shared[k]) by {
        lemma_values_merge_again(room_or_empty(l.shared, k), d.shared[k]);
    }
}

proof fn lemma_values_cover_self(a: ValuesView)
    ensures
        values_cover(a, a),
{
    assert forall|k: Seq<char>| #[trigger] a.counters.contains_key(k) implies Counter::covers(
        a.counters[k],
        a.counters[k],
    ) by {
        Counter::lemma_join(a.counters[k], a.counters[k]);
    }
    assert forall|k: Seq<char>| #[trigger] a.sets.contains_key(k) implies ItemSet::covers(
        a.sets[k],
        a.sets[k],
    ) by {
        ItemSet::lemma_join(a.sets[k], a.sets[k]);
    }
}

proof fn lemma_crdt_merge_empty<C: Crdt>(o: Map<Seq<char>, C::V>)
    ensures
        crdt_merge::<C>(o, Map::empty()) == o,
{
    assert(crdt_merge::<C>(o, Map::empty()) =~= o);
}

proof fn lemma_values_fresh_suffices(a: ValuesView, d: ValuesView)
    ensures
        values_merge(a, values_fresh(a, d)) == values_merge(a, d),
        values_empty(values_fresh(a, d)) ==> values_merge(a, d) == a,
        a == empty_values() ==> values_fresh(a, d) == d,
{
    lemma_crdt_fresh_suffices::<Counter>(a.counters, d.counters);
    lemma_crdt_fresh_suffices::<ItemSet>(a.sets, d.sets);
    let f = values_fresh(a, d);
    if values_empty(f) {
        assert(f.counters =~= Map::empty());
        assert(f.sets =~= Map::empty());
        lemma_crdt_merge_empty::<Counter>(a.counters);
        lemma_crdt_merge_empty::<ItemSet>(a.sets);
    }
    if a == empty_values() {
        assert(crdt_stale::<Counter>(a.counters, d.counters) =~= vstd::set::Set::empty());
        assert(crdt_stale::<ItemSet>(a.sets, d.sets) =~= vstd::set::Set::empty());
        assert(f.counters =~= d.counters);
        assert(f.sets =~= d.sets);
    }
}

/// Every room of `d` is either known to `s` or not empty.
pub open spec fn rooms_new_nonempty(
    s: Map<Seq<char>, ValuesView>,
    d: Map<Seq<char>, ValuesView>,
) -> bool {
    forall|k: Seq<char>| #[trigger] d.contains_key(k) ==> s.contains_key(k) || !values_empty(d[k])
}

proof fn lemma_rooms_fresh_suffices(s: Map<Seq<char>, ValuesView>, d: Map<Seq<char>, ValuesView>)
    requires
        rooms_new_nonempty(s, d),
    ensures
        rooms_merge(s, rooms_fresh(s, d)) == rooms_merge(s, d),
{
    let f = rooms_fresh(s, d);
    assert forall|k: Seq<char>| #[trigger] d.contains_key(k) implies (f.contains_key(k)
        && values_merge(room_or_empty(s, k), f[k]) == values_merge(room_or_empty(s, k), d[k])) || (
    !f.contains_key(k) && s.contains_key(k) && values_merge(room_or_empty(s, k), d[k]) == s[k]) by {
        lemma_values_fresh_suffices(room_or_empty(s, k), d[k]);
    }
    assert(rooms_merge(s, f) =~= rooms_merge(s, d));
}

/// Law: the delta that an update gives back carries every change: applying
/// it in place of the whole delta leaves the lattice in the same state
/// (where the delta brings no empty room that the lattice lacks).
pub proof fn law_fresh_delta_suffices(l: LatticeView, d: DeltaView)
    requires
        rooms_new_nonempty(l.shared, d.shared),
        forall|sid: Seq<char>| #[trigger] d.private.contains_key(sid) ==> rooms_new_nonempty(
            session_or_empty(l.private, sid),
            d.private[sid],
        ),
    ensures
        lattice_after(l, delta_fresh(l, d)) == lattice_after(l, d),
{
    lemma_rooms_fresh_suffices(l.shared, d.shared);
    let f = private_fresh(l.private, d.private);
    assert forall|sid: Seq<char>| #[trigger] d.private.contains_key(sid) implies rooms_merge(
        session_or_empty(l.private, sid),
        f[sid],
    ) == rooms_merge(session_or_empty(l.private, sid), d.private[sid]) by {
        lemma_rooms_fresh_suffices(session_or_empty(l.private, sid), d.private[sid]);
    }
    assert(private_merge(l.private, f) =~= private_merge(l.private, d.private));
}

/// Merging two deltas into a map gives the same map in either order.
proof fn lemma_crdt_merge_commute<C: Crdt>(
    o: Map<Seq<char>, C::V>,
    a: Map<Seq<char>, C::V>,
    b: Map<Seq<char>, C::V>,
)
    ensures
        crdt_merge::<C>(crdt_merge::<C>(o, a), b) == crdt_merge::<C>(crdt_merge::<C>(o, b), a),
{
    let x = crdt_merge::<C>(crdt_merge::<C>(o, a), b);
    let y = crdt_merge::<C>(crdt_merge::<C>(o, b), a);
    assert forall|k: Seq<char>| #[trigger] x.contains_key(k) implies x[k] == y[k] by {
        if a.contains_key(k) && b.contains_key(k) {
            if o.contains_key(k) {
                C::lemma_join_assoc(o[k], a[k], b[k]);
                C::lemma_join_assoc(o[k], b[k], a[k]);
                C::lemma_join(a[k], b[k]);
            } else {
                C::lemma_join(a[k], b[k]);
            }
        }
    }
    assert(x =~= y);
}

/// Merging a room's values with two deltas gives the same room in either
/// order.
proof fn lemma_values_merge_commute(x: ValuesView, a: ValuesView, b: ValuesView)
    ensures
        values_merge(values_merge(x, a), b) == values_merge(values_merge(x, b), a),
{
    lemma_crdt_merge_commute::<Counter>(x.counters, a.counters, b.counters);
    lemma_crdt_merge_commute::<ItemSet>(x.sets, a.sets, b.sets);
}

/// Merging two deltas' rooms gives the same rooms in either order.
proof fn lemma_rooms_merge_commute(
    s: Map<Seq<char>, ValuesView>,
    a: Map<Seq<char>, ValuesView>,
    b: Map<Seq<char>, ValuesView>,
)
    ensures
        rooms_merge(rooms_merge(s, a), b) == rooms_merge(rooms_merge(s, b), a),
{
    let x = rooms_merge(rooms_merge(s, a), b);
    let y = rooms_merge(rooms_merge(s, b), a);
    assert forall|k: Seq<char>| #[trigger] x.contains_key(k) implies x[k] == y[k] by {
        if a.contains_key(k) && b.contains_key(k) {
            lemma_values_merge_commute(room_or_empty(s, k), a[k], b[k]);
        }
    }
    assert(x =~= y);
}

/// Merging two deltas' private rooms gives the same rooms in either order.
proof fn lemma_private_merge_commute(
    s: Map<Seq<char>, Map<Seq<char>, ValuesView>>,
    a: Map<Seq<char>, Map<Seq<char>, ValuesView>>,
    b: Map<Seq<char>, Map<Seq<char>, ValuesView>>,
)
    ensures
        private_merge(private_merge(s, a), b) == private_merge(private_merge(s, b), a),
{
    let x = private_merge(private_merge(s, a), b);
    let y = private_merge(private_merge(s, b), a);
    assert forall|k: Seq<char>| #[trigger] x.contains_key(k) implies x[k] == y[k] by {
        if a.contains_key(k) && b.contains_key(k) {
            lemma_rooms_merge_commute(session_or_empty(s, k), a[k], b[k]);
        }
    }
    assert(x =~= y);
}

/// Law: two deltas bring a lattice to the same state in whichever order
/// they arrive.
pub proof fn law_updates_commute(l: LatticeView, a: DeltaView, b: DeltaView)
    ensures
        lattice_after(lattice_after(l, a), b) == lattice_after(lattice_after(l, b), a),
{
    lemma_rooms_merge_commute(l.shared, a.shared, b.shared);
    lemma_private_merge_commute(l.private, a.private, b.private);
}

} // verus!
