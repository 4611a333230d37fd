//! The JSON values that chat messages carry.
use vstd::prelude::*;

verus! {

/// A JSON value, as the message protocol reads it. Numbers keep the three
/// kinds that a JSON parser distinguishes; a non-integer number keeps its
/// decimal text.
#[derive(Debug)]
pub enum JsonValue {
    Null,
    Bool(bool),
    /// A non-negative integer.
    PosInt(u64),
    /// A negative integer.
    NegInt(i64),
    /// Any other number, by its decimal text.
    Float(String),
    Str(String),
    Array(Vec<JsonValue>),
    Object(JsonMap),
}

/// A JSON object: its members in order, no key twice.
#[derive(Debug)]
pub struct JsonMap {
    pub entries: Vec<(String, JsonValue)>,
}

impl JsonMap {
    /// The keys of the members, in order.
    pub open spec fn keys(&self) -> Seq<Seq<char>> {
        self.entries@.map_values(|e: (String, JsonValue)| e.0@)
    }

    /// The value stored under `key`, if any (the first one).
    pub open spec fn lookup(&self, key: Seq<char>) -> Option<JsonValue>
        decreases self.entries@.len(),
    {
        lookup_entries(self.entries@, key)
    }

    /// An object without members.
    pub fn new() -> (r: JsonMap)
        ensures
            r.entries@.len() == 0,
    {
        JsonMap { entries: Vec::new() }
    }

    /// Stores `value` under `key`: in place of the member of that key, or as
    /// a new last member.
    pub fn insert(&mut self, key: String, value: JsonValue)
        ensures
            final(self).lookup(key@) == Some(value),
            forall|k: Seq<char>| k != key@ ==> #[trigger] final(self).lookup(k) == old(self).lookup(
                k,
            ),
    {
        let mut i: usize = 0;
        proof {
            assert(self.entries@.skip(0) =~= self.entries@);
        }
        while i < self.entries.len()
            invariant
                i <= self.entries@.len(),
                self.entries@ == old(self).entries@,
                forall|j: int| 0 <= j < i ==> #[trigger] self.entries@[j].0@ != key@,
            decreases self.entries.len() - i,
        {
            if crate::text::str_eq(self.entries[i].0.as_str(), key.as_str()) {
                let ghost before = self.entries@;
                self.entries.set(i, (key, value));
                proof {
                    lemma_lookup_update(before, i as int, self.entries@[i as int]);
                }
                return ;
            }
            i = i + 1;
        }
        let ghost before = self.entries@;
        let ghost kv = key@;
        self.entries.push((key, value));
        proof {
            lemma_lookup_push(before, self.entries@.last());
        }
    }

    /// Removes all members.
    pub fn clear(&mut self)
        ensures
            forall|k: Seq<char>| #[trigger] final(self).lookup(k) is None,
    {
        self.entries = Vec::new();
    }

    /// The value stored under `key`.
    pub fn get(&self, key: &str) -> (r: Option<&JsonValue>)
        ensures
            r matches Some(v) ==> self.lookup(key@) == Some(*v),
            r is None ==> self.lookup(key@) is None,
    {
        let mut i: usize = 0;
        proof {
            assert(self.entries@.skip(0) =~= self.entries@);
        }
        while i < self.entries.len()
            invariant
                i <= self.entries@.len(),
                lookup_entries(self.entries@, key@) == lookup_entries(
                    self.entries@.skip(i as int),
                    key@,
                ),
            decreases self.entries.len() - i,
        {
            proof {
                assert(self.entries@.skip(i as int).drop_first() =~= self.entries@.skip(i + 1));
            }
            if crate::text::str_eq(self.entries[i].0.as_str(), key) {
                return Some(&self.entries[i].1);
            }
            i = i + 1;
        }
        None
    }
}

/// The first value stored under `key` in `e`.
pub open spec fn lookup_entries(e: Seq<(String, JsonValue)>, key: Seq<char>) -> Option<JsonValue>
    decreases e.len(),
{
    if e.len() == 0 {
        None
    } else if e[0].0@ == key {
        Some(e[0].1)
    } else {
        lookup_entries(e.drop_first(), key)
    }
}

proof fn lemma_lookup_update(e: Seq<(String, JsonValue)>, i: int, p: (String, JsonValue))
    requires
        0 <= i < e.len(),
        e[i].0@ == p.0@,
        forall|j: int| 0 <= j < i ==> #[trigger] e[j].0@ != p.0@,
    ensures
        lookup_entries(e.update(i, p), p.0@) == Some(p.1),
        forall|k: Seq<char>| k != p.0@ ==> #[trigger] lookup_entries(e.update(i, p), k)
            == lookup_entries(e, k),
    decreases e.len(),
{
    let u = e.update(i, p);
    if i > 0 {
        assert(u.drop_first() =~= e.drop_first().update(i - 1, p));
        lemma_lookup_update(e.drop_first(), i - 1, p);
    } else {
        assert(u.drop_first() =~= e.drop_first());
    }
    assert forall|k: Seq<char>| k != p.0@ implies #[trigger] lookup_entries(u, k) == lookup_entries(
        e,
        k,
    ) by {
        assert(u[0].0@ == k <==> e[0].0@ == k);
        if i > 0 {
            assert(lookup_entries(e.drop_first().update(i - 1, p), k) == lookup_entries(
                e.drop_first(),
                k,
            ));
        }
        assert(lookup_entries(u.drop_first(), k) == lookup_entries(e.drop_first(), k));
    }
}

proof fn lemma_lookup_push(e: Seq<(String, JsonValue)>, p: (String, JsonValue))
    requires
        forall|j: int| 0 <= j < e.len() ==> #[trigger] e[j].0@ != p.0@,
    ensures
        lookup_entries(e.push(p), p.0@) == Some(p.1),
        forall|k: Seq<char>| k != p.0@ ==> #[trigger] lookup_entries(e.push(p), k)
            == lookup_entries(e, k),
    decreases e.len(),
{
    let u = e.push(p);
    if e.len() > 0 {
        assert(u.drop_first() =~= e.drop_first().push(p));
        lemma_lookup_push(e.drop_first(), p);
        assert forall|k: Seq<char>| k != p.0@ implies #[trigger] lookup_entries(u, k)
            == lookup_entries(e, k) by {
            assert(u[0] == e[0]);
            assert(lookup_entries(e.drop_first().push(p), k) == lookup_entries(e.drop_first(), k));
            assert(lookup_entries(u.drop_first(), k) == lookup_entries(e.drop_first(), k));
        }
    } else {
        assert forall|k: Seq<char>| k != p.0@ implies #[trigger] lookup_entries(u, k)
            == lookup_entries(e, k) by {
            assert(u.drop_first() =~= Seq::<(String, JsonValue)>::empty());
            assert(lookup_entries(u.drop_first(), k) is None);
            assert(u[0].0@ != k);
        }
    }
}

} // verus!
