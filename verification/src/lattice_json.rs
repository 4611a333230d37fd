//! The JSON form of lattice data. A room is an object whose keys end in
//! `_counter`, for a counter (a non-negative integer), or in `_set`, for a
//! set (an array of strings); the rest of the key names the value. A delta
//! is an object with an optional `shared` part (rooms by name) and an
//! optional `private` part (rooms by name, by session).
use vstd::prelude::*;
use crate::json::{JsonMap, JsonValue};
use crate::lattice::{Delta, DeltaView, Values, ValuesView, empty_values};
use crate::map::{KeyMap, StrMap, StrSet, Valid};
use crate::dispatcher::concat;
use crate::text::{chars_eq_str, chars_range, str_chars};

verus! {

/// Whether `s` ends with `suffix`.
pub open spec fn ends_with(s: Seq<char>, suffix: Seq<char>) -> bool {
    s.len() >= suffix.len() && s.skip(s.len() - suffix.len()) == suffix
}

/// `s` without its last `suffix.len()` characters.
pub open spec fn strip(s: Seq<char>, suffix: Seq<char>) -> Seq<char> {
    s.take(s.len() - suffix.len())
}

/// Why lattice data is refused, by the key at fault.
#[derive(Debug)]
pub enum LatticeDataError {
    /// A key of a room ends neither in `_counter` nor in `_set`.
    UnsupportedKey(String),
    /// The value of a counter is not a non-negative integer.
    BadCounter(String),
    /// The value of a set is not an array of strings.
    BadSet(String),
    /// The value under this key is not an object.
    NotAnObject(String),
}

/// A refusal by the text of its key.
pub enum LatticeDataErrorView {
    UnsupportedKey(Seq<char>),
    BadCounter(Seq<char>),
    BadSet(Seq<char>),
    NotAnObject(Seq<char>),
}

impl View for LatticeDataError {
    type V = LatticeDataErrorView;

    open spec fn view(&self) -> LatticeDataErrorView {
        match self {
            LatticeDataError::UnsupportedKey(k) => LatticeDataErrorView::UnsupportedKey(k@),
            LatticeDataError::BadCounter(k) => LatticeDataErrorView::BadCounter(k@),
            LatticeDataError::BadSet(k) => LatticeDataErrorView::BadSet(k@),
            LatticeDataError::NotAnObject(k) => LatticeDataErrorView::NotAnObject(k@),
        }
    }
}

/// The set of strings that array `a` holds, if it holds strings only.
pub open spec fn string_set(a: Seq<JsonValue>) -> Option<Set<Seq<char>>>
    decreases a.len(),
{
    if a.len() == 0 {
        Some(Set::empty())
    } else {
        match (string_set(a.drop_last()), a.last()) {
            (Some(s), JsonValue::Str(t)) => Some(s.insert(t@)),
            _ => None,
        }
    }
}

/// Room `v` with the member `f` read into it.
pub open spec fn room_field(v: ValuesView, f: (String, JsonValue)) -> Result<ValuesView, LatticeDataErrorView> {
    let k = f.0@;
    if ends_with(k, "_counter"@) {
        match f.1 {
            JsonValue::PosInt(n) => Ok(
                ValuesView { counters: v.counters.insert(strip(k, "_counter"@), n), sets: v.sets },
            ),
            _ => Err(LatticeDataErrorView::BadCounter(k)),
        }
    } else if ends_with(k, "_set"@) {
        match f.1 {
            JsonValue::Array(items) => match string_set(items@) {
                Some(s) => Ok(
                    ValuesView { counters: v.counters, sets: v.sets.insert(strip(k, "_set"@), s) },
                ),
                None => Err(LatticeDataErrorView::BadSet(k)),
            },
            _ => Err(LatticeDataErrorView::BadSet(k)),
        }
    } else {
        Err(LatticeDataErrorView::UnsupportedKey(k))
    }
}

/// The room that the members `f` of an object make, read in order: the
/// first bad member refuses it; a later member of a name replaces an
/// earlier one.
pub open spec fn room_of(f: Seq<(String, JsonValue)>) -> Result<ValuesView, LatticeDataErrorView>
    decreases f.len(),
{
    if f.len() == 0 {
        Ok(empty_values())
    } else {
        match room_of(f.drop_last()) {
            Ok(v) => room_field(v, f.last()),
            Err(e) => Err(e),
        }
    }
}

/// `k` without `suffix`, where it ends with it.
fn strip_suffix(k: &String, suffix: &str) -> (r: Option<String>)
    ensures
        r matches Some(p) ==> ends_with(k@, suffix@) && p@ == strip(k@, suffix@),
        r is None ==> !ends_with(k@, suffix@),
{
    let v = str_chars(k.as_str());
    let m = str_chars(suffix).len();
    let n = v.len();
    if n < m {
        return None;
    }
    if chars_eq_str(v.as_slice(), n - m, n, suffix) {
        proof {
            assert(v@.subrange((n - m) as int, n as int) =~= k@.skip(k@.len() - suffix@.len()));
        }
        let p = chars_range(v.as_slice(), 0, n - m);
        proof {
            assert(p@ =~= strip(k@, suffix@));
        }
        Some(p)
    } else {
        proof {
            assert(v@.subrange((n - m) as int, n as int) =~= k@.skip(k@.len() - suffix@.len()));
        }
        None
    }
}

/// A set that stays refused once a prefix of the array is refused.
proof fn lemma_string_set_refused(a: Seq<JsonValue>, k: int)
    requires
        0 <= k <= a.len(),
        string_set(a.take(k)) is None,
    ensures
        string_set(a) is None,
    decreases a.len() - k,
{
    if k < a.len() {
        assert(a.take(k + 1).drop_last() =~= a.take(k));
        lemma_string_set_refused(a, k + 1);
    } else {
        assert(a.take(k) =~= a);
    }
}

/// The strings of array `a`, where it holds strings only.
pub fn strings_of(a: &Vec<JsonValue>) -> (r: Option<StrSet>)
    ensures
        r matches Some(s) ==> s.wf() && string_set(a@) == Some(s@),
        r is None ==> string_set(a@) is None,
{
    let mut s = StrSet::new();
    let mut i: usize = 0;
    proof {
        assert(a@.take(0) =~= Seq::<JsonValue>::empty());
    }
    while i < a.len()
        invariant
            i <= a@.len(),
            s.wf(),
            string_set(a@.take(i as int)) == Some(s@),
        decreases a.len() - i,
    {
        proof {
            assert(a@.take(i + 1).drop_last() =~= a@.take(i as int));
        }
        match &a[i] {
            JsonValue::Str(t) => {
                s.insert(t.clone());
            },
            _ => {
                proof {
                    lemma_string_set_refused(a@, i + 1);
                }
                return None;
            },
        }
        i = i + 1;
    }
    proof {
        assert(a@.take(a@.len() as int) =~= a@);
    }
    Some(s)
}

/// A room stays refused once a prefix of its members is refused.
proof fn lemma_room_refused(f: Seq<(String, JsonValue)>, k: int)
    requires
        0 <= k <= f.len(),
        room_of(f.take(k)) is Err,
    ensures
        room_of(f) == room_of(f.take(k)),
    decreases f.len() - k,
{
    if k < f.len() {
        assert(f.take(k + 1).drop_last() =~= f.take(k));
        lemma_room_refused(f, k + 1);
    } else {
        assert(f.take(k) =~= f);
    }
}

/// Reads a room from the members of its JSON object (see `room_of`).
pub fn room_from_members(f: &Vec<(String, JsonValue)>) -> (r: Result<Values, LatticeDataError>)
    ensures
        match room_of(f@) {
            Ok(v) => r matches Ok(x) && x.valid() && x@ == v,
            Err(e) => r matches Err(x) && x@ == e,
        },
{
    let mut room = Values::new();
    let mut i: usize = 0;
    proof {
        assert(f@.take(0) =~= Seq::<(String, JsonValue)>::empty());
    }
    while i < f.len()
        invariant
            i <= f@.len(),
            room.valid(),
            room_of(f@.take(i as int)) == Ok::<ValuesView, LatticeDataErrorView>(room@),
        decreases f.len() - i,
    {
        proof {
            assert(f@.take(i + 1).drop_last() =~= f@.take(i as int));
            assert(f@.take(i + 1).last() == f@[i as int]);
        }
        let (k, value) = &f[i];
        let err: Option<LatticeDataError> = match strip_suffix(k, "_counter") {
            Some(name) => match value {
                JsonValue::PosInt(n) => {
                    room.set_counter(name, *n);
                    None
                },
                _ => Some(LatticeDataError::BadCounter(k.clone())),
            },
            None => match strip_suffix(k, "_set") {
                Some(name) => match value {
                    JsonValue::Array(items) => match strings_of(items) {
                        Some(s) => {
                            room.set_items(name, s);
                            None
                        },
                        None => Some(LatticeDataError::BadSet(k.clone())),
                    },
                    _ => Some(LatticeDataError::BadSet(k.clone())),
                },
                None => Some(LatticeDataError::UnsupportedKey(k.clone())),
            },
        };
        match err {
            Some(e) => {
                proof {
                    lemma_room_refused(f@, i + 1);
                }
                return Err(e);
            },
            None => {},
        }
        i = i + 1;
    }
    proof {
        assert(f@.take(f@.len() as int) =~= f@);
    }
    Ok(room)
}

/// A key with a suffix ends with it, and stripping it gives the key back.
proof fn lemma_suffix(k: Seq<char>, suffix: Seq<char>)
    ensures
        ends_with(k + suffix, suffix),
        strip(k + suffix, suffix) == k,
{
    assert((k + suffix).skip(k.len() as int) =~= suffix);
    assert((k + suffix).take(k.len() as int) =~= k);
}

/// A set's key does not end like a counter's.
proof fn lemma_set_key(k: Seq<char>)
    ensures
        !ends_with(k + "_set"@, "_counter"@),
        ends_with(k + "_set"@, "_set"@),
        strip(k + "_set"@, "_set"@) == k,
{
    reveal_strlit("_set");
    reveal_strlit("_counter");
    lemma_suffix(k, "_set"@);
    let t = k + "_set"@;
    if ends_with(t, "_counter"@) {
        assert(t.skip(t.len() - 8)[7] == t[t.len() - 1]);
        assert(t[t.len() - 1] == 't');
    }
}

/// The strings of `s` as a JSON array.
fn string_array(s: &StrSet) -> (r: Vec<JsonValue>)
    requires
        s.wf(),
    ensures
        string_set(r@) == Some(s@),
{
    let mut r: Vec<JsonValue> = Vec::new();
    let mut j: usize = 0;
    let ghost items = s.elems();
    proof {
        assert(items.take(0).to_set() =~= Set::<Seq<char>>::empty());
    }
    while j < s.len()
        invariant
            j <= items.len(),
            items == s.elems(),
            string_set(r@) == Some(items.take(j as int).to_set()),
        decreases items.len() - j,
    {
        let t = s.item_at(j).clone();
        let ghost before = r@;
        r.push(JsonValue::Str(t));
        proof {
            assert(r@.drop_last() =~= before);
            assert(items.take(j + 1) =~= items.take(j as int).push(items[j as int]));
            items.take(j as int).lemma_push_to_set_commute(items[j as int]);
        }
        j = j + 1;
    }
    proof {
        assert(items.take(items.len() as int) =~= items);
    }
    r
}

impl Values {
    /// The members of the room's JSON object: a `<name>_counter` member for
    /// each counter, then a `<name>_set` member for each set. Reading them
    /// back gives the same room.
    pub fn to_members(&self) -> (r: Vec<(String, JsonValue)>)
        requires
            self.valid(),
        ensures
            room_of(r@) == Ok::<ValuesView, LatticeDataErrorView>(self@),
    {
        let counters = self.counter_map();
        let sets = self.set_map();
        let ghost ck = counters.keys();
        let ghost sk = sets.keys();
        proof {
            counters.lemma_wf();
            sets.lemma_wf();
            assert(counters@.restrict(ck.take(0).to_set()) =~= Map::<Seq<char>, u64>::empty());
        }
        let mut r: Vec<(String, JsonValue)> = Vec::new();
        let mut i: usize = 0;
        while i < counters.len()
            invariant
                i <= ck.len(),
                ck == counters.keys(),
                counters.wf(),
                counters@ == self@.counters,
                counters@.dom() == ck.to_set(),
                room_of(r@) == Ok::<ValuesView, LatticeDataErrorView>(
                    ValuesView {
                        counters: counters@.restrict(ck.take(i as int).to_set()),
                        sets: Map::empty(),
                    },
                ),
            decreases ck.len() - i,
        {
            let k = counters.key_at(i);
            let c = counters.value_at(i);
            let name = concat(k.as_str(), "_counter");
            let ghost before = r@;
            r.push((name, JsonValue::PosInt(c.0)));
            proof {
                lemma_suffix(k@, "_counter"@);
                assert(r@.drop_last() =~= before);
                assert(ck.take(i + 1) =~= ck.take(i as int).push(k@));
                ck.take(i as int).lemma_push_to_set_commute(k@);
                assert(counters@.restrict(ck.take(i + 1).to_set()) =~= counters@.restrict(
                    ck.take(i as int).to_set(),
                ).insert(k@, c.0));
            }
            i = i + 1;
        }
        proof {
            assert(ck.take(ck.len() as int) =~= ck);
            assert(counters@.restrict(ck.to_set()) =~= counters@);
            assert(sets@.restrict(sk.take(0).to_set()) =~= Map::<Seq<char>, Set<Seq<char>>>::empty());
        }
        let mut j: usize = 0;
        while j < sets.len()
            invariant
                j <= sk.len(),
                sk == sets.keys(),
                sets.wf(),
                sets@ == self@.sets,
                sets@.dom() == sk.to_set(),
                counters@ == self@.counters,
                room_of(r@) == Ok::<ValuesView, LatticeDataErrorView>(
                    ValuesView {
                        counters: counters@,
                        sets: sets@.restrict(sk.take(j as int).to_set()),
                    },
                ),
            decreases sk.len() - j,
        {
            let k = sets.key_at(j);
            let s = sets.value_at(j);
            let name = concat(k.as_str(), "_set");
            let items = string_array(&s.0);
            let ghost before = r@;
            r.push((name, JsonValue::Array(items)));
            proof {
                lemma_set_key(k@);
                assert(r@.drop_last() =~= before);
                assert(sk.take(j + 1) =~= sk.take(j as int).push(k@));
                sk.take(j as int).lemma_push_to_set_commute(k@);
                assert(sets@.restrict(sk.take(j + 1).to_set()) =~= sets@.restrict(
                    sk.take(j as int).to_set(),
                ).insert(k@, s@));
            }
            j = j + 1;
        }
        proof {
            assert(sk.take(sk.len() as int) =~= sk);
            assert(sets@.restrict(sk.to_set()) =~= sets@);
        }
        r
    }
}

/// The rooms, by name, that the members `f` of an object make: each value
/// is a room's object; the first bad member refuses them all.
pub open spec fn rooms_of(f: Seq<(String, JsonValue)>) -> Result<
    Map<Seq<char>, ValuesView>,
    LatticeDataErrorView,
>
    decreases f.len(),
{
    if f.len() == 0 {
        Ok(Map::empty())
    } else {
        match rooms_of(f.drop_last()) {
            Ok(m) => match f.last().1 {
                JsonValue::Object(o) => match room_of(o.entries@) {
                    Ok(v) => Ok(m.insert(f.last().0@, v)),
                    Err(e) => Err(e),
                },
                _ => Err(LatticeDataErrorView::NotAnObject(f.last().0@)),
            },
            Err(e) => Err(e),
        }
    }
}

/// The private rooms, by session, that the members `f` of an object make:
/// each value is an object of rooms.
pub open spec fn sessions_of(f: Seq<(String, JsonValue)>) -> Result<
    Map<Seq<char>, Map<Seq<char>, ValuesView>>,
    LatticeDataErrorView,
>
    decreases f.len(),
{
    if f.len() == 0 {
        Ok(Map::empty())
    } else {
        match sessions_of(f.drop_last()) {
            Ok(m) => match f.last().1 {
                JsonValue::Object(o) => match rooms_of(o.entries@) {
                    Ok(v) => Ok(m.insert(f.last().0@, v)),
                    Err(e) => Err(e),
                },
                _ => Err(LatticeDataErrorView::NotAnObject(f.last().0@)),
            },
            Err(e) => Err(e),
        }
    }
}

/// The delta that a JSON object `m` makes: its `shared` and `private` parts,
/// each empty where absent or `null`; other members are ignored. Where
/// both parts are bad, the `shared` one is reported.
pub open spec fn delta_of(m: JsonMap) -> Result<DeltaView, LatticeDataErrorView> {
    let shared = match m.lookup("shared"@) {
        None => Ok(Map::empty()),
        Some(JsonValue::Null) => Ok(Map::empty()),
        Some(JsonValue::Object(o)) => rooms_of(o.entries@),
        Some(_) => Err(LatticeDataErrorView::NotAnObject("shared"@)),
    };
    let private = match m.lookup("private"@) {
        None => Ok(Map::empty()),
        Some(JsonValue::Null) => Ok(Map::empty()),
        Some(JsonValue::Object(o)) => sessions_of(o.entries@),
        Some(_) => Err(LatticeDataErrorView::NotAnObject("private"@)),
    };
    match (shared, private) {
        (Err(e), _) => Err(e),
        (Ok(_), Err(e)) => Err(e),
        (Ok(s), Ok(p)) => Ok(DeltaView { shared: s, private: p }),
    }
}

/// Rooms stay refused once a prefix of the members is refused.
proof fn lemma_rooms_refused(f: Seq<(String, JsonValue)>, k: int)
    requires
        0 <= k <= f.len(),
        rooms_of(f.take(k)) is Err,
    ensures
        rooms_of(f) == rooms_of(f.take(k)),
    decreases f.len() - k,
{
    if k < f.len() {
        assert(f.take(k + 1).drop_last() =~= f.take(k));
        lemma_rooms_refused(f, k + 1);
    } else {
        assert(f.take(k) =~= f);
    }
}

/// Sessions stay refused once a prefix of the members is refused.
proof fn lemma_sessions_refused(f: Seq<(String, JsonValue)>, k: int)
    requires
        0 <= k <= f.len(),
        sessions_of(f.take(k)) is Err,
    ensures
        sessions_of(f) == sessions_of(f.take(k)),
    decreases f.len() - k,
{
    if k < f.len() {
        assert(f.take(k + 1).drop_last() =~= f.take(k));
        lemma_sessions_refused(f, k + 1);
    } else {
        assert(f.take(k) =~= f);
    }
}

/// Reads rooms by name from the members of an object (see `rooms_of`).
pub fn rooms_from_members(f: &Vec<(String, JsonValue)>) -> (r: Result<StrMap<Values>, LatticeDataError>)
    ensures
        match rooms_of(f@) {
            Ok(v) => r matches Ok(x) && x.wf() && x@ == v,
            Err(e) => r matches Err(x) && x@ == e,
        },
{
    let mut rooms: StrMap<Values> = StrMap::new();
    let mut i: usize = 0;
    proof {
        assert(f@.take(0) =~= Seq::<(String, JsonValue)>::empty());
    }
    while i < f.len()
        invariant
            i <= f@.len(),
            rooms.wf(),
            rooms_of(f@.take(i as int)) == Ok::<Map<Seq<char>, ValuesView>, LatticeDataErrorView>(
                rooms@,
            ),
        decreases f.len() - i,
    {
        proof {
            assert(f@.take(i + 1).drop_last() =~= f@.take(i as int));
            assert(f@.take(i + 1).last() == f@[i as int]);
        }
        let (k, value) = &f[i];
        let err = match value {
            JsonValue::Object(o) => match room_from_members(&o.entries) {
                Ok(room) => {
                    rooms.insert(k.clone(), room);
                    None
                },
                Err(e) => Some(e),
            },
            _ => Some(LatticeDataError::NotAnObject(k.clone())),
        };
        match err {
            Some(e) => {
                proof {
                    lemma_rooms_refused(f@, i + 1);
                }
                return Err(e);
            },
            None => {},
        }
        i = i + 1;
    }
    proof {
        assert(f@.take(f@.len() as int) =~= f@);
    }
    Ok(rooms)
}

/// Reads private rooms by session from the members of an object (see
/// `sessions_of`).
pub fn sessions_from_members(f: &Vec<(String, JsonValue)>) -> (r: Result<
    StrMap<StrMap<Values>>,
    LatticeDataError,
>)
    ensures
        match sessions_of(f@) {
            Ok(v) => r matches Ok(x) && x.wf() && x@ == v,
            Err(e) => r matches Err(x) && x@ == e,
        },
{
    let mut sessions: StrMap<StrMap<Values>> = StrMap::new();
    let mut i: usize = 0;
    proof {
        assert(f@.take(0) =~= Seq::<(String, JsonValue)>::empty());
    }
    while i < f.len()
        invariant
            i <= f@.len(),
            sessions.wf(),
            sessions_of(f@.take(i as int)) == Ok::<
                Map<Seq<char>, Map<Seq<char>, ValuesView>>,
                LatticeDataErrorView,
            >(sessions@),
        decreases f.len() - i,
    {
        proof {
            assert(f@.take(i + 1).drop_last() =~= f@.take(i as int));
            assert(f@.take(i + 1).last() == f@[i as int]);
        }
        let (k, value) = &f[i];
        let err = match value {
            JsonValue::Object(o) => match rooms_from_members(&o.entries) {
                Ok(rooms) => {
                    sessions.insert(k.clone(), rooms);
                    None
                },
                Err(e) => Some(e),
            },
            _ => Some(LatticeDataError::NotAnObject(k.clone())),
        };
        match err {
            Some(e) => {
                proof {
                    lemma_sessions_refused(f@, i + 1);
                }
                return Err(e);
            },
            None => {},
        }
        i = i + 1;
    }
    proof {
        assert(f@.take(f@.len() as int) =~= f@);
    }
    Ok(sessions)
}

impl Delta {
    /// Reads a delta from its JSON object (see `delta_of`).
    pub fn from_json(m: &JsonMap) -> (r: Result<Delta, LatticeDataError>)
        ensures
            match delta_of(*m) {
                Ok(d) => r matches Ok(x) && x.valid() && x@ == d,
                Err(e) => r matches Err(x) && x@ == e,
            },
    {
        let shared = match m.get("shared") {
            None => StrMap::new(),
            Some(JsonValue::Null) => StrMap::new(),
            Some(JsonValue::Object(o)) => match rooms_from_members(&o.entries) {
                Ok(rooms) => rooms,
                Err(e) => {
                    return Err(e);
                },
            },
            Some(_) => {
                return Err(LatticeDataError::NotAnObject("shared".to_string()));
            },
        };
        let private = match m.get("private") {
            None => StrMap::new(),
            Some(JsonValue::Null) => StrMap::new(),
            Some(JsonValue::Object(o)) => match sessions_from_members(&o.entries) {
                Ok(sessions) => sessions,
                Err(e) => {
                    return Err(e);
                },
            },
            Some(_) => {
                return Err(LatticeDataError::NotAnObject("private".to_string()));
            },
        };
        Ok(Delta { shared, private })
    }
}

/// Member `i` of `f` is the last one under its key.
pub open spec fn last_under_key(f: Seq<(String, JsonValue)>, i: int) -> bool {
    &&& 0 <= i < f.len()
    &&& forall|j: int| i < j < f.len() ==> (#[trigger] f[j]).0@ != f[i].0@
}

/// The keys of the members `f`.
pub open spec fn member_keys(f: Seq<(String, JsonValue)>) -> Set<Seq<char>> {
    Set::new(|k: Seq<char>| exists|i: int| 0 <= i < f.len() && (#[trigger] f[i]).0@ == k)
}

/// The members of a JSON object; none for any other value.
pub open spec fn object_members(v: JsonValue) -> Seq<(String, JsonValue)> {
    match v {
        JsonValue::Object(o) => o.entries@,
        _ => Seq::empty(),
    }
}

/// The keys of `f` and of `f` without its last member differ by that
/// member's key alone.
proof fn lemma_member_keys_push(f: Seq<(String, JsonValue)>)
    requires
        f.len() > 0,
    ensures
        member_keys(f) == member_keys(f.drop_last()).insert(f.last().0@),
        forall|i: int| last_under_key(f, i) && i < f.len() - 1 ==> last_under_key(f.drop_last(), i),
{
    let p = f.drop_last();
    assert forall|k: Seq<char>| member_keys(f).contains(k) implies member_keys(p).insert(
        f.last().0@,
    ).contains(k) by {
        let i = choose|i: int| 0 <= i < f.len() && (#[trigger] f[i]).0@ == k;
        if i < p.len() {
            assert(p[i] == f[i]);
        }
    }
    assert forall|k: Seq<char>| member_keys(p).insert(f.last().0@).contains(k) implies member_keys(
        f,
    ).contains(k) by {
        if k == f.last().0@ {
            assert(f[f.len() - 1] == f.last());
        } else {
            let i = choose|i: int| 0 <= i < p.len() && (#[trigger] p[i]).0@ == k;
            assert(f[i] == p[i]);
        }
    }
    assert(member_keys(f) =~= member_keys(p).insert(f.last().0@));
    assert forall|i: int| last_under_key(f, i) && i < f.len() - 1 implies last_under_key(p, i) by {
        assert forall|j: int| i < j < p.len() implies (#[trigger] p[j]).0@ != p[i].0@ by {
            assert(p[j] == f[j]);
        }
    }
}

/// Law: rooms are read from an object whose every member holds a good
/// room's object, and only from such an object. The rooms then have
/// exactly the object's keys, and under each key the room that its last
/// member holds.
pub proof fn law_rooms_of(f: Seq<(String, JsonValue)>)
    ensures
        rooms_of(f) is Ok <==> forall|i: int|
            0 <= i < f.len() ==> (#[trigger] f[i]).1 is Object && room_of(object_members(f[i].1)) is Ok,
        rooms_of(f) matches Ok(m) ==> {
            &&& m.dom() == member_keys(f)
            &&& forall|i: int|
                #[trigger] last_under_key(f, i) ==> room_of(object_members(f[i].1)) == Ok::<
                    ValuesView,
                    LatticeDataErrorView,
                >(m[f[i].0@])
        },
    decreases f.len(),
{
    if f.len() == 0 {
        assert(member_keys(f) =~= Set::empty());
    } else {
        let p = f.drop_last();
        let x = f.last();
        law_rooms_of(p);
        lemma_member_keys_push(f);
        assert(f[f.len() - 1] == x);
        assert forall|i: int| 0 <= i < p.len() implies #[trigger] p[i] == f[i] by {}
        if rooms_of(f) is Ok {
            let m = rooms_of(f)->Ok_0;
            assert forall|i: int| #[trigger] last_under_key(f, i) implies room_of(
                object_members(f[i].1),
            ) == Ok::<ValuesView, LatticeDataErrorView>(m[f[i].0@]) by {
                if i < p.len() {
                    assert(f[f.len() - 1].0@ != f[i].0@);
                    assert(last_under_key(p, i));
                }
            }
        }
        if rooms_of(f) is Ok {
            assert forall|i: int| 0 <= i < f.len() implies (#[trigger] f[i]).1 is Object && room_of(
                object_members(f[i].1),
            ) is Ok by {
                if i < p.len() {
                    assert(p[i] == f[i]);
                }
            }
        }
        if forall|i: int|
            0 <= i < f.len() ==> (#[trigger] f[i]).1 is Object && room_of(
                object_members(f[i].1),
            ) is Ok {
            assert(forall|i: int|
                0 <= i < p.len() ==> (#[trigger] p[i]).1 is Object && room_of(
                    object_members(p[i].1),
                ) is Ok);
        }
    }
}

/// Law: private rooms are read from an object whose every member holds an
/// object of good rooms, and only from such an object. They then have
/// exactly the object's keys as sessions, and under each session the rooms
/// read from its last member.
pub proof fn law_sessions_of(f: Seq<(String, JsonValue)>)
    ensures
        sessions_of(f) is Ok <==> forall|i: int|
            0 <= i < f.len() ==> (#[trigger] f[i]).1 is Object && rooms_of(object_members(f[i].1)) is Ok,
        sessions_of(f) matches Ok(m) ==> {
            &&& m.dom() == member_keys(f)
            &&& forall|i: int|
                #[trigger] last_under_key(f, i) ==> rooms_of(object_members(f[i].1)) == Ok::<
                    Map<Seq<char>, ValuesView>,
                    LatticeDataErrorView,
                >(m[f[i].0@])
        },
    decreases f.len(),
{
    if f.len() == 0 {
        assert(member_keys(f) =~= Set::empty());
    } else {
        let p = f.drop_last();
        let x = f.last();
        law_sessions_of(p);
        lemma_member_keys_push(f);
        assert(f[f.len() - 1] == x);
        assert forall|i: int| 0 <= i < p.len() implies #[trigger] p[i] == f[i] by {}
        if sessions_of(f) is Ok {
            let m = sessions_of(f)->Ok_0;
            assert forall|i: int| #[trigger] last_under_key(f, i) implies rooms_of(
                object_members(f[i].1),
            ) == Ok::<Map<Seq<char>, ValuesView>, LatticeDataErrorView>(m[f[i].0@]) by {
                if i < p.len() {
                    assert(f[f.len() - 1].0@ != f[i].0@);
                    assert(last_under_key(p, i));
                }
            }
        }
        if sessions_of(f) is Ok {
            assert forall|i: int| 0 <= i < f.len() implies (#[trigger] f[i]).1 is Object && rooms_of(
                object_members(f[i].1),
            ) is Ok by {
                if i < p.len() {
                    assert(p[i] == f[i]);
                }
            }
        }
        if forall|i: int|
            0 <= i < f.len() ==> (#[trigger] f[i]).1 is Object && rooms_of(
                object_members(f[i].1),
            ) is Ok {
            assert(forall|i: int|
                0 <= i < p.len() ==> (#[trigger] p[i]).1 is Object && rooms_of(
                    object_members(p[i].1),
                ) is Ok);
        }
    }
}

/// The text of a JSON string; empty for any other value.
pub open spec fn string_text(v: JsonValue) -> Seq<char> {
    match v {
        JsonValue::Str(t) => t@,
        _ => Seq::empty(),
    }
}

/// The items of a JSON array; none for any other value.
pub open spec fn array_items(v: JsonValue) -> Seq<JsonValue> {
    match v {
        JsonValue::Array(a) => a@,
        _ => Seq::empty(),
    }
}

/// Law: an array makes a set exactly when each of its items is a string,
/// and the set then holds exactly the texts of its items.
pub proof fn law_string_set(a: Seq<JsonValue>)
    ensures
        string_set(a) is Some <==> forall|m: int| 0 <= m < a.len() ==> (#[trigger] a[m]) is Str,
        string_set(a) matches Some(s) ==> forall|t: Seq<char>|
            #[trigger] s.contains(t) <==> exists|m: int|
                0 <= m < a.len() && string_text(#[trigger] a[m]) == t,
    decreases a.len(),
{
    if a.len() > 0 {
        let p = a.drop_last();
        law_string_set(p);
        assert(a[a.len() - 1] == a.last());
        assert forall|m: int| 0 <= m < p.len() implies #[trigger] p[m] == a[m] by {}
        if string_set(a) is Some {
            let s = string_set(a)->Some_0;
            let sp = string_set(p)->Some_0;
            assert forall|m: int| 0 <= m < a.len() implies (#[trigger] a[m]) is Str by {
                if m < p.len() {
                    assert(p[m] == a[m]);
                }
            }
            assert forall|t: Seq<char>| #[trigger] s.contains(t) implies exists|m: int|
                0 <= m < a.len() && string_text(#[trigger] a[m]) == t by {
                if t == string_text(a.last()) {
                    assert(string_text(a[a.len() - 1]) == t);
                } else {
                    assert(sp.contains(t));
                    let m = choose|m: int| 0 <= m < p.len() && string_text(#[trigger] p[m]) == t;
                    assert(string_text(a[m]) == t);
                }
            }
            assert forall|t: Seq<char>|
                (exists|m: int| 0 <= m < a.len() && string_text(#[trigger] a[m]) == t) implies #[trigger] s.contains(t) by {
                let m = choose|m: int| 0 <= m < a.len() && string_text(#[trigger] a[m]) == t;
                if m < p.len() {
                    assert(string_text(p[m]) == t);
                    assert(sp.contains(t));
                }
            }
        }
        if forall|m: int| 0 <= m < a.len() ==> (#[trigger] a[m]) is Str {
            assert(forall|m: int| 0 <= m < p.len() ==> (#[trigger] p[m]) is Str);
            assert(a[a.len() - 1] is Str);
        }
    } else {
        assert(string_set(a) == Some(Set::<Seq<char>>::empty()));
    }
}

/// The names that the keys of `f` ending in `suffix` give, without it.
pub open spec fn names_with(f: Seq<(String, JsonValue)>, suffix: Seq<char>) -> Set<Seq<char>> {
    Set::new(
        |n: Seq<char>|
            exists|i: int|
                0 <= i < f.len() && ends_with((#[trigger] f[i]).0@, suffix) && strip(f[i].0@, suffix)
                    == n,
    )
}

/// Member `x` of a room's object is a counter holding a non-negative
/// integer, or a set holding an array of strings.
pub open spec fn room_member_ok(x: (String, JsonValue)) -> bool {
    ||| ends_with(x.0@, "_counter"@) && x.1 is PosInt
    ||| ends_with(x.0@, "_set"@) && x.1 is Array && string_set(array_items(x.1)) is Some
}

/// Two keys with the same suffix and the same rest are the same key.
proof fn lemma_strip_injective(a: Seq<char>, b: Seq<char>, suffix: Seq<char>)
    requires
        ends_with(a, suffix),
        ends_with(b, suffix),
        strip(a, suffix) == strip(b, suffix),
    ensures
        a == b,
{
    assert(a =~= strip(a, suffix) + a.skip(a.len() - suffix.len()));
    assert(b =~= strip(b, suffix) + b.skip(b.len() - suffix.len()));
}

/// No key ends both like a set's and like a counter's.
proof fn lemma_set_not_counter(k: Seq<char>)
    ensures
        ends_with(k, "_set"@) ==> !ends_with(k, "_counter"@),
{
    reveal_strlit("_set");
    reveal_strlit("_counter");
    if ends_with(k, "_set"@) && ends_with(k, "_counter"@) {
        assert(k.skip(k.len() - 4)[3] == k[k.len() - 1]);
        assert(k.skip(k.len() - 8)[7] == k[k.len() - 1]);
    }
}

/// The names of `f` and of `f` without its last member differ by the last
/// member's name alone, where its key has the suffix.
proof fn lemma_names_push(f: Seq<(String, JsonValue)>, suffix: Seq<char>)
    requires
        f.len() > 0,
    ensures
        names_with(f, suffix) == if ends_with(f.last().0@, suffix) {
            names_with(f.drop_last(), suffix).insert(strip(f.last().0@, suffix))
        } else {
            names_with(f.drop_last(), suffix)
        },
{
    let p = f.drop_last();
    let x = f.last();
    let want = if ends_with(x.0@, suffix) {
        names_with(p, suffix).insert(strip(x.0@, suffix))
    } else {
        names_with(p, suffix)
    };
    assert(f[f.len() - 1] == x);
    assert forall|n: Seq<char>| names_with(f, suffix).contains(n) implies want.contains(n) by {
        let i = choose|i: int|
            0 <= i < f.len() && ends_with((#[trigger] f[i]).0@, suffix) && strip(f[i].0@, suffix)
                == n;
        if i < p.len() {
            assert(p[i] == f[i]);
        }
    }
    assert forall|n: Seq<char>| want.contains(n) implies names_with(f, suffix).contains(n) by {
        if ends_with(x.0@, suffix) && n == strip(x.0@, suffix) {
        } else {
            let i = choose|i: int|
                0 <= i < p.len() && ends_with((#[trigger] p[i]).0@, suffix) && strip(
                    p[i].0@,
                    suffix,
                ) == n;
            assert(f[i] == p[i]);
        }
    }
    assert(names_with(f, suffix) =~= want);
}

/// Law: a room is read from an object whose every member is a counter
/// holding a non-negative integer or a set holding an array of strings,
/// and only from such an object. Its counters and sets are then named by
/// those keys without their suffix, and each holds what the last member of
/// its key holds.
pub proof fn law_room_of(f: Seq<(String, JsonValue)>)
    ensures
        room_of(f) is Ok <==> forall|i: int| 0 <= i < f.len() ==> room_member_ok(#[trigger] f[i]),
        room_of(f) matches Ok(v) ==> {
            &&& v.counters.dom() == names_with(f, "_counter"@)
            &&& v.sets.dom() == names_with(f, "_set"@)
            &&& forall|i: int|
                #[trigger] last_under_key(f, i) && ends_with(f[i].0@, "_counter"@) ==> f[i].1
                    == JsonValue::PosInt(v.counters[strip(f[i].0@, "_counter"@)])
            &&& forall|i: int|
                #[trigger] last_under_key(f, i) && ends_with(f[i].0@, "_set"@) ==> string_set(
                    array_items(f[i].1),
                ) == Some(v.sets[strip(f[i].0@, "_set"@)])
        },
    decreases f.len(),
{
    if f.len() == 0 {
        assert(names_with(f, "_counter"@) =~= Set::empty());
        assert(names_with(f, "_set"@) =~= Set::empty());
    } else {
        let p = f.drop_last();
        let x = f.last();
        law_room_of(p);
        lemma_member_keys_push(f);
        lemma_names_push(f, "_counter"@);
        lemma_names_push(f, "_set"@);
        lemma_set_not_counter(x.0@);
        assert(f[f.len() - 1] == x);
        assert forall|i: int| 0 <= i < p.len() implies #[trigger] p[i] == f[i] by {}
        if room_of(f) is Ok {
            let v = room_of(f)->Ok_0;
            let vp = room_of(p)->Ok_0;
            assert forall|i: int| 0 <= i < f.len() implies room_member_ok(#[trigger] f[i]) by {
                if i < p.len() {
                    assert(p[i] == f[i]);
                }
            }
            assert forall|i: int|
                #[trigger] last_under_key(f, i) && ends_with(
                    f[i].0@,
                    "_counter"@,
                ) implies f[i].1 == JsonValue::PosInt(v.counters[strip(f[i].0@, "_counter"@)]) by {
                if i < p.len() {
                    assert(f[f.len() - 1].0@ != f[i].0@);
                    assert(last_under_key(p, i));
                    if ends_with(x.0@, "_counter"@) && strip(x.0@, "_counter"@) == strip(
                        f[i].0@,
                        "_counter"@,
                    ) {
                        lemma_strip_injective(x.0@, f[i].0@, "_counter"@);
                    }
                }
            }
            assert forall|i: int|
                #[trigger] last_under_key(f, i) && ends_with(f[i].0@, "_set"@) implies string_set(
                    array_items(f[i].1),
                ) == Some(v.sets[strip(f[i].0@, "_set"@)]) by {
                if i < p.len() {
                    assert(f[f.len() - 1].0@ != f[i].0@);
                    assert(last_under_key(p, i));
                    if ends_with(x.0@, "_set"@) && strip(x.0@, "_set"@) == strip(f[i].0@, "_set"@) {
                        lemma_strip_injective(x.0@, f[i].0@, "_set"@);
                    }
                }
            }
        }
        if forall|i: int| 0 <= i < f.len() ==> room_member_ok(#[trigger] f[i]) {
            assert(forall|i: int| 0 <= i < p.len() ==> room_member_ok(#[trigger] p[i]));
            assert(room_member_ok(f[f.len() - 1]));
        }
    }
}

/// Law: a delta is read from an object whose `shared` part, and whose
/// `private` part, is absent, `null` or an object of good rooms (of good
/// rooms by session), and only from such an object. Its shared rooms are
/// then those read from the `shared` part and its private rooms those read
/// from the `private` part, each empty where the part is absent or `null`.
pub proof fn law_delta_of(m: JsonMap)
    ensures
        delta_of(m) is Ok <==> {
            &&& match m.lookup("shared"@) {
                None => true,
                Some(JsonValue::Null) => true,
                Some(JsonValue::Object(o)) => rooms_of(o.entries@) is Ok,
                Some(_) => false,
            }
            &&& match m.lookup("private"@) {
                None => true,
                Some(JsonValue::Null) => true,
                Some(JsonValue::Object(o)) => sessions_of(o.entries@) is Ok,
                Some(_) => false,
            }
        },
        delta_of(m) matches Ok(d) ==> {
            &&& (m.lookup("shared"@) matches Some(JsonValue::Object(o)) ==> rooms_of(o.entries@)
                == Ok::<Map<Seq<char>, ValuesView>, LatticeDataErrorView>(d.shared))
            &&& (m.lookup("shared"@) is None || m.lookup("shared"@) == Some(JsonValue::Null)
                ==> d.shared == Map::<Seq<char>, ValuesView>::empty())
            &&& (m.lookup("private"@) matches Some(JsonValue::Object(o)) ==> sessions_of(
                o.entries@,
            ) == Ok::<Map<Seq<char>, Map<Seq<char>, ValuesView>>, LatticeDataErrorView>(
                d.private,
            ))
            &&& (m.lookup("private"@) is None || m.lookup("private"@) == Some(JsonValue::Null)
                ==> d.private == Map::<Seq<char>, Map<Seq<char>, ValuesView>>::empty())
        },
{
}

/// How a bad member `x` of a room's object is refused: by its key, as a
/// bad counter, a bad set or a key of neither kind.
pub open spec fn member_refusal(x: (String, JsonValue)) -> LatticeDataErrorView {
    if ends_with(x.0@, "_counter"@) {
        LatticeDataErrorView::BadCounter(x.0@)
    } else if ends_with(x.0@, "_set"@) {
        LatticeDataErrorView::BadSet(x.0@)
    } else {
        LatticeDataErrorView::UnsupportedKey(x.0@)
    }
}

/// Law: a refused room is refused for its first bad member.
pub proof fn law_room_of_refusal(f: Seq<(String, JsonValue)>)
    ensures
        room_of(f) matches Err(e) ==> exists|i: int|
            0 <= i < f.len() && !room_member_ok(#[trigger] f[i]) && (forall|j: int|
                0 <= j < i ==> room_member_ok(#[trigger] f[j])) && e == member_refusal(f[i]),
    decreases f.len(),
{
    if f.len() > 0 {
        let p = f.drop_last();
        let x = f.last();
        law_room_of_refusal(p);
        law_room_of(p);
        lemma_set_not_counter(x.0@);
        assert(f[f.len() - 1] == x);
        assert forall|i: int| 0 <= i < p.len() implies #[trigger] p[i] == f[i] by {}
        if room_of(f) is Err {
            if room_of(p) is Err {
                let i = choose|i: int|
                    0 <= i < p.len() && !room_member_ok(#[trigger] p[i]) && (forall|j: int|
                        0 <= j < i ==> room_member_ok(#[trigger] p[j])) && room_of(p)->Err_0
                        == member_refusal(p[i]);
                assert(f[i] == p[i]);
                assert forall|j: int| 0 <= j < i implies room_member_ok(#[trigger] f[j]) by {
                    assert(p[j] == f[j]);
                }
            } else {
                let i = f.len() - 1;
                assert forall|j: int| 0 <= j < i implies room_member_ok(#[trigger] f[j]) by {
                    assert(p[j] == f[j]);
                }
            }
        }
    }
}

/// How a bad member `x` of an object of rooms is refused: a value that is
/// not an object by the member's key, a bad room as the room is.
pub open spec fn rooms_member_refusal(x: (String, JsonValue)) -> LatticeDataErrorView {
    match x.1 {
        JsonValue::Object(o) => match room_of(o.entries@) {
            Err(e) => e,
            Ok(_) => LatticeDataErrorView::NotAnObject(x.0@),
        },
        _ => LatticeDataErrorView::NotAnObject(x.0@),
    }
}

/// Law: refused rooms are refused for their first bad member: one whose
/// value is not an object, or is a refused room.
pub proof fn law_rooms_of_refusal(f: Seq<(String, JsonValue)>)
    ensures
        rooms_of(f) matches Err(e) ==> exists|i: int|
            0 <= i < f.len() && !((#[trigger] f[i]).1 is Object && room_of(
                object_members(f[i].1),
            ) is Ok) && (forall|j: int|
                0 <= j < i ==> (#[trigger] f[j]).1 is Object && room_of(
                    object_members(f[j].1),
                ) is Ok) && e == rooms_member_refusal(f[i]),
    decreases f.len(),
{
    if f.len() > 0 {
        let p = f.drop_last();
        let x = f.last();
        law_rooms_of_refusal(p);
        law_rooms_of(p);
        assert(f[f.len() - 1] == x);
        assert forall|i: int| 0 <= i < p.len() implies #[trigger] p[i] == f[i] by {}
        if rooms_of(f) is Err {
            if rooms_of(p) is Err {
                let i = choose|i: int|
                    0 <= i < p.len() && !((#[trigger] p[i]).1 is Object && room_of(
                        object_members(p[i].1),
                    ) is Ok) && (forall|j: int|
                        0 <= j < i ==> (#[trigger] p[j]).1 is Object && room_of(
                            object_members(p[j].1),
                        ) is Ok) && rooms_of(p)->Err_0 == rooms_member_refusal(p[i]);
                assert(f[i] == p[i]);
                assert forall|j: int| 0 <= j < i implies (#[trigger] f[j]).1 is Object && room_of(
                    object_members(f[j].1),
                ) is Ok by {
                    assert(p[j] == f[j]);
                }
            } else {
                let i = f.len() - 1;
                assert forall|j: int| 0 <= j < i implies (#[trigger] f[j]).1 is Object && room_of(
                    object_members(f[j].1),
                ) is Ok by {
                    assert(p[j] == f[j]);
                }
            }
        }
    }
}

/// How a bad member `x` of an object of sessions is refused: a value that
/// is not an object by the member's key, bad rooms as the rooms are.
pub open spec fn sessions_member_refusal(x: (String, JsonValue)) -> LatticeDataErrorView {
    match x.1 {
        JsonValue::Object(o) => match rooms_of(o.entries@) {
            Err(e) => e,
            Ok(_) => LatticeDataErrorView::NotAnObject(x.0@),
        },
        _ => LatticeDataErrorView::NotAnObject(x.0@),
    }
}

/// Law: refused private rooms are refused for their first bad session: one
/// whose value is not an object, or holds refused rooms.
pub proof fn law_sessions_of_refusal(f: Seq<(String, JsonValue)>)
    ensures
        sessions_of(f) matches Err(e) ==> exists|i: int|
            0 <= i < f.len() && !((#[trigger] f[i]).1 is Object && rooms_of(
                object_members(f[i].1),
            ) is Ok) && (forall|j: int|
                0 <= j < i ==> (#[trigger] f[j]).1 is Object && rooms_of(
                    object_members(f[j].1),
                ) is Ok) && e == sessions_member_refusal(f[i]),
    decreases f.len(),
{
    if f.len() > 0 {
        let p = f.drop_last();
        let x = f.last();
        law_sessions_of_refusal(p);
        law_sessions_of(p);
        assert(f[f.len() - 1] == x);
        assert forall|i: int| 0 <= i < p.len() implies #[trigger] p[i] == f[i] by {}
        if sessions_of(f) is Err {
            if sessions_of(p) is Err {
                let i = choose|i: int|
                    0 <= i < p.len() && !((#[trigger] p[i]).1 is Object && rooms_of(
                        object_members(p[i].1),
                    ) is Ok) && (forall|j: int|
                        0 <= j < i ==> (#[trigger] p[j]).1 is Object && rooms_of(
                            object_members(p[j].1),
                        ) is Ok) && sessions_of(p)->Err_0 == sessions_member_refusal(p[i]);
                assert(f[i] == p[i]);
                assert forall|j: int| 0 <= j < i implies (#[trigger] f[j]).1 is Object && rooms_of(
                    object_members(f[j].1),
                ) is Ok by {
                    assert(p[j] == f[j]);
                }
            } else {
                let i = f.len() - 1;
                assert forall|j: int| 0 <= j < i implies (#[trigger] f[j]).1 is Object && rooms_of(
                    object_members(f[j].1),
                ) is Ok by {
                    assert(p[j] == f[j]);
                }
            }
        }
    }
}

} // verus!
