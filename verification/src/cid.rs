//! Connection ids.
use vstd::prelude::*;

verus! {

/// Internal connection id.
#[derive(Debug, Clone, Copy, PartialEq, Eq, Hash, Structural)]
pub struct Cid(pub u64);

impl View for Cid {
    type V = u64;

    open spec fn view(&self) -> u64 {
        self.0
    }
}

impl crate::map::MapKey for Cid {
    fn same(&self, other: &Self) -> (r: bool) {
        self.0 == other.0
    }

    fn copy_key(&self) -> (r: Self) {
        Cid(self.0)
    }
}

/// The source of fresh connection ids: a counter that wraps around.
pub struct CidAllocator {
    next: u64,
}

/// A decimal digit character.
pub open spec fn is_digit(c: char) -> bool {
    '0' <= c && c <= '9'
}

/// The number that a string of decimal digits spells.
pub open spec fn decimal_value(d: Seq<char>) -> nat
    decreases d.len(),
{
    if d.len() == 0 {
        0
    } else {
        decimal_value(d.drop_last()) * 10 + ((d.last() as u32) - ('0' as u32)) as nat
    }
}

/// The number that `s` spells as an unsigned 64-bit decimal: an optional
/// `+`, then at least one digit and nothing else, with a value that fits.
/// `s` without a leading `+`.
pub open spec fn unsigned_part(s: Seq<char>) -> Seq<char> {
    if s.len() > 0 && s[0] == '+' {
        s.drop_first()
    } else {
        s
    }
}

/// Every character of `d` is a decimal digit.
pub open spec fn all_digits(d: Seq<char>) -> bool {
    forall|i: int| 0 <= i < d.len() ==> #[trigger] is_digit(d[i])
}

pub open spec fn parse_u64(s: Seq<char>) -> Option<u64> {
    let d = unsigned_part(s);
    if d.len() > 0 && all_digits(d) && decimal_value(d) <= u64::MAX {
        Some(decimal_value(d) as u64)
    } else {
        None
    }
}

/// The decimal digits of `n`, without leading zeros.
pub open spec fn decimal_text(n: nat) -> Seq<char>
    decreases n,
{
    if n < 10 {
        seq![(('0' as u32) + n) as char]
    } else {
        decimal_text(n / 10).push((('0' as u32) + (n % 10)) as char)
    }
}

/// A longer run of digits spells at least what its beginning spells.
proof fn lemma_decimal_prefix(d: Seq<char>, k: int)
    requires
        0 <= k <= d.len(),
    ensures
        decimal_value(d.take(k)) <= decimal_value(d),
    decreases d.len() - k,
{
    if k < d.len() {
        lemma_decimal_prefix(d, k + 1);
        assert(d.take(k + 1).drop_last() =~= d.take(k));
    } else {
        assert(d.take(k) =~= d);
    }
}

/// Reads an unsigned 64-bit decimal number (see `parse_u64`).
fn u64_from_str(s: &str) -> (r: Option<u64>)
    ensures
        r == parse_u64(s@),
{
    let v = crate::text::str_chars(s);
    let start: usize = if v.len() > 0 && v[0] == '+' { 1 } else { 0 };
    let ghost d = unsigned_part(s@);
    proof {
        assert(d =~= v@.skip(start as int));
    }
    if start == v.len() {
        return None;
    }
    let mut acc: u64 = 0;
    let mut i: usize = start;
    proof {
        assert(d.take(0) =~= Seq::<char>::empty());
    }
    while i < v.len()
        invariant
            v@ == s@,
            start <= i <= v@.len(),
            d == v@.skip(start as int),
            d == unsigned_part(s@),
            forall|k: int| 0 <= k < i - start ==> #[trigger] is_digit(d[k]),
            acc == decimal_value(d.take(i - start)),
        decreases v.len() - i,
    {
        let c = v[i];
        proof {
            assert(d.len() == v@.len() - start);
            assert(d[i - start] == c);
            assert(d.take(i - start + 1).drop_last() =~= d.take(i - start));
            assert(d.take(i - start + 1).last() == c);
        }
        if !('0' <= c && c <= '9') {
            proof {
                assert(!is_digit(d[i - start]));
                assert(0 <= i - start < d.len());
            }
            return None;
        }
        let dg = (c as u32 - '0' as u32) as u64;
        proof {
            assert(decimal_value(d.take(i - start + 1)) == acc * 10 + dg);
        }
        match acc.checked_mul(10) {
            None => {
                proof {
                    lemma_decimal_prefix(d, i - start + 1);
                }
                return None;
            },
            Some(m) => match m.checked_add(dg) {
                None => {
                    proof {
                        lemma_decimal_prefix(d, i - start + 1);
                    }
                    return None;
                },
                Some(x) => {
                    acc = x;
                },
            },
        }
        i = i + 1;
    }
    proof {
        assert(d.take(d.len() as int) =~= d);
    }
    Some(acc)
}

/// The decimal digit of `d`, below ten.
fn digit_char(d: u64) -> (c: char)
    requires
        d < 10,
    ensures
        c == (('0' as u32) + d) as char,
{
    if d == 0 { '0' } else if d == 1 { '1' } else if d == 2 { '2' } else if d == 3 { '3' } else if d
        == 4 { '4' } else if d == 5 { '5' } else if d == 6 { '6' } else if d == 7 { '7' } else if d
        == 8 { '8' } else { '9' }
}

/// The decimal digits of the number, without leading zeros.
pub(crate) fn u64_to_text(n: u64) -> (r: String)
    ensures
        r@ == decimal_text(n as nat),
    decreases n,
{
    if n < 10 {
        let mut s = String::new();
        crate::text::string_push(&mut s, digit_char(n));
        proof {
            assert(s@ =~= decimal_text(n as nat));
        }
        s
    } else {
        let mut s = u64_to_text(n / 10);
        crate::text::string_push(&mut s, digit_char(n % 10));
        s
    }
}

impl CidAllocator {
    /// A counter that starts at zero.
    pub fn new() -> (r: CidAllocator)
        ensures
            r.next_value() == 0,
    {
        CidAllocator { next: 0 }
    }

    /// The id that the next allocation gives.
    pub closed spec fn next_value(&self) -> u64 {
        self.next
    }
}

/// The debug form of connection id `c`: `Cid(<n>)`, or `cid:<n>` in the
/// alternate form.
pub open spec fn cid_debug(c: u64, alternate: bool) -> Seq<char> {
    if alternate {
        "cid:"@ + decimal_text(c as nat)
    } else {
        "Cid("@ + decimal_text(c as nat) + ")"@
    }
}

/// The counter's value after `v`: one more, wrapping around.
pub open spec fn counter_step(v: u64) -> u64 {
    if v == u64::MAX {
        0
    } else {
        (v + 1) as u64
    }
}

impl Cid {
    /// A fresh connection id: the counter's value, after which the counter
    /// moves on by one (wrapping around).
    pub fn new(alloc: &mut CidAllocator) -> (r: Cid)
        ensures
            r.0 == old(alloc).next_value(),
            final(alloc).next_value() == counter_step(old(alloc).next_value()),
    {
        let v = alloc.next;
        alloc.next = if v == u64::MAX {
            0
        } else {
            v + 1
        };
        Cid(v)
    }

    /// The debug form of the id: `Cid(<n>)`, or `cid:<n>` in the alternate
    /// form.
    pub fn debug_text(&self, alternate: bool) -> (r: String)
        ensures
            r@ == cid_debug(self.0, alternate),
    {
        let num = u64_to_text(self.0);
        if alternate {
            crate::dispatcher::concat("cid:", num.as_str())
        } else {
            let a = crate::dispatcher::concat("Cid(", num.as_str());
            crate::dispatcher::concat(a.as_str(), ")")
        }
    }

    /// Parses a connection id from its decimal form.
    pub fn parse(src: &str) -> (r: Option<Cid>)
        ensures
            r == (match parse_u64(src@) {
                Some(v) => Some(Cid(v)),
                None => None,
            }),
    {
        match u64_from_str(src) {
            Some(v) => Some(Cid(v)),
            None => None,
        }
    }

    /// The decimal form of the id.
    pub fn to_text(&self) -> (r: String)
        ensures
            r@ == decimal_text(self.0 as nat),
    {
        u64_to_text(self.0)
    }
}

/// A digit's value.
proof fn lemma_digit(n: nat)
    requires
        n < 10,
    ensures
        is_digit((('0' as u32) + n) as char),
        (((('0' as u32) + n) as char) as u32 - ('0' as u32)) as nat == n,
{
}

/// The decimal text of a number is all digits and spells the number.
pub proof fn lemma_decimal_text(n: nat)
    ensures
        decimal_text(n).len() > 0,
        forall|i: int| 0 <= i < decimal_text(n).len() ==> #[trigger] is_digit(decimal_text(n)[i]),
        decimal_value(decimal_text(n)) == n,
        decimal_text(n)[0] != '+',
    decreases n,
{
    if n < 10 {
        lemma_digit(n);
        assert(decimal_text(n).drop_last() =~= Seq::<char>::empty());
        assert(decimal_value(decimal_text(n)) == decimal_value(Seq::<char>::empty()) * 10 + n);
    } else {
        lemma_decimal_text(n / 10);
        lemma_digit(n % 10);
        let t = decimal_text(n);
        assert(t.drop_last() =~= decimal_text(n / 10));
        assert(decimal_value(t) == decimal_value(t.drop_last()) * 10 + n % 10);
        assert((n / 10) * 10 + n % 10 == n) by (nonlinear_arith);
        assert forall|i: int| 0 <= i < t.len() implies #[trigger] is_digit(t[i]) by {
            if i < t.len() - 1 {
                assert(t[i] == decimal_text(n / 10)[i]);
            }
        }
    }
}

/// Law: the decimal form of a connection id parses back to the same id.
pub proof fn law_cid_text_roundtrip(c: Cid)
    ensures
        parse_u64(decimal_text(c.0 as nat)) == Some(c.0),
{
    lemma_decimal_text(c.0 as nat);
}

/// Law: two ids allocated one after the other from the same counter differ.
pub proof fn law_consecutive_ids_differ(a: CidAllocator, b: CidAllocator, c1: Cid, c2: Cid)
    requires
        c1.0 == a.next_value(),
        b.next_value() == counter_step(a.next_value()),
        c2.0 == b.next_value(),
    ensures
        c1 != c2,
{
}

/// The value of a counter `k` steps after `a`, for `k` up to `2^64`.
pub open spec fn counter_after(a: u64, k: int) -> int {
    if a + k < 0x1_0000_0000_0000_0000 {
        a + k
    } else {
        a + k - 0x1_0000_0000_0000_0000
    }
}

/// A counter stepped `k` times from `counters[0]` holds `counter_after`.
proof fn lemma_counter_after(counters: Seq<u64>, k: int)
    requires
        0 <= k < counters.len(),
        k <= 0x1_0000_0000_0000_0000,
        forall|m: int| 0 <= m < k ==> #[trigger] counters[m + 1] == counter_step(counters[m]),
    ensures
        counters[k] == counter_after(counters[0], k),
    decreases k,
{
    if k > 0 {
        lemma_counter_after(counters, k - 1);
        assert(counters[(k - 1) + 1] == counter_step(counters[k - 1]));
    }
}

/// Law: the ids that one counter hands out in a row, at most `2^64` of
/// them, are all different. `counters` are the counter's values before
/// each allocation and after the last; `ids` the ids given out.
pub proof fn law_allocated_ids_distinct(counters: Seq<u64>, ids: Seq<Cid>)
    requires
        counters.len() == ids.len() + 1,
        ids.len() <= 0x1_0000_0000_0000_0000,
        forall|k: int| 0 <= k < ids.len() ==> #[trigger] ids[k].0 == counters[k],
        forall|k: int| 0 <= k < ids.len() ==> #[trigger] counters[k + 1] == counter_step(counters[k]),
    ensures
        forall|i: int, j: int| 0 <= i < j < ids.len() ==> #[trigger] ids[i] != #[trigger] ids[j],
{
    assert forall|i: int, j: int| 0 <= i < j < ids.len() implies #[trigger] ids[i] != #[trigger] ids[j] by {
        lemma_counter_after(counters, i);
        lemma_counter_after(counters, j);
        assert(ids[i].0 == counters[i]);
        assert(ids[j].0 == counters[j]);
    }
}

/// Public connection id: the connection's id on the server of the given
/// id, written `<server id>-<connection id>`.
#[derive(Debug)]
pub struct PubCid(pub Cid, pub String);

/// The index of the last `c` in `s`, if any.
pub open spec fn last_index(s: Seq<char>, c: char) -> Option<int> {
    if exists|i: int| 0 <= i < s.len() && s[i] == c {
        Some(choose|i: int| 0 <= i < s.len() && s[i] == c && forall|j: int| i < j < s.len() ==> s[j] != c)
    } else {
        None
    }
}

/// The public connection id that `s` spells: the text after its last `-`
/// is the decimal connection id, the text before it the server id.
pub open spec fn parse_pub_cid(s: Seq<char>) -> Option<(u64, Seq<char>)> {
    match last_index(s, '-') {
        Some(i) => match parse_u64(s.skip(i + 1)) {
            Some(c) => Some((c, s.take(i))),
            None => None,
        },
        None => None,
    }
}

/// The last occurrence of a character is unique.
proof fn lemma_last_index(s: Seq<char>, c: char, i: int)
    requires
        0 <= i < s.len(),
        s[i] == c,
        forall|j: int| i < j < s.len() ==> s[j] != c,
    ensures
        last_index(s, c) == Some(i),
{
    let k = choose|k: int| 0 <= k < s.len() && s[k] == c && forall|j: int| k < j < s.len() ==> s[j] != c;
    assert(0 <= k < s.len() && s[k] == c && forall|j: int| k < j < s.len() ==> s[j] != c);
    if k < i {
        assert(s[i] != c);
    }
    if i < k {
        assert(s[k] != c);
    }
}

impl PubCid {
    /// Parses a public connection id.
    pub fn from_str(src: &str) -> (r: Result<PubCid, ()>)
        ensures
            match parse_pub_cid(src@) {
                Some((c, sid)) => r matches Ok(p) && p.0.0 == c && p.1@ == sid,
                None => r is Err,
            },
    {
        let v = crate::text::str_chars(src);
        let n = v.len();
        let mut i: usize = n;
        while i > 0
            invariant
                i <= n,
                n == v@.len(),
                v@ == src@,
                forall|j: int| i <= j < n ==> v@[j] != '-',
            ensures
                i <= n,
                forall|j: int| i <= j < n ==> v@[j] != '-',
                i > 0 ==> v@[i - 1] == '-',
            decreases i,
        {
            if v[i - 1] == '-' {
                break;
            }
            i = i - 1;
        }
        if i == 0 {
            proof {
                assert(!(exists|k: int| 0 <= k < src@.len() && src@[k] == '-'));
            }
            return Err(());
        }
        let s = i - 1;
        proof {
            lemma_last_index(src@, '-', s as int);
        }
        let rid = crate::text::chars_range(v.as_slice(), 0, s);
        let tail = crate::text::chars_range(v.as_slice(), i, n);
        proof {
            assert(rid@ =~= src@.take(s as int));
            assert(tail@ =~= src@.skip(s + 1));
        }
        match Cid::parse(tail.as_str()) {
            Some(cid) => Ok(PubCid(cid, rid)),
            None => Err(()),
        }
    }

    /// The public connection id as text.
    pub fn to_text(&self) -> (r: String)
        ensures
            r@ == self.1@ + seq!['-'] + decimal_text(self.0.0 as nat),
    {
        let num = u64_to_text(self.0.0);
        let head = crate::dispatcher::concat(self.1.as_str(), "-");
        let r = crate::dispatcher::concat(head.as_str(), num.as_str());
        proof {
            reveal_strlit("-");
            assert(r@ =~= self.1@ + seq!['-'] + decimal_text(self.0.0 as nat));
        }
        r
    }
}

/// Law: a public connection id parses back from its text, whatever its
/// server id.
pub proof fn law_pub_cid_roundtrip(c: u64, server: Seq<char>)
    ensures
        parse_pub_cid(server + seq!['-'] + decimal_text(c as nat)) == Some((c, server)),
{
    let t = server + seq!['-'] + decimal_text(c as nat);
    let d = decimal_text(c as nat);
    lemma_decimal_text(c as nat);
    let i = server.len() as int;
    assert(t[i] == '-');
    assert forall|j: int| i < j < t.len() implies t[j] != '-' by {
        assert(t[j] == d[j - i - 1]);
        assert(is_digit(d[j - i - 1]));
    }
    lemma_last_index(t, '-', i);
    assert(t.skip(i + 1) =~= d);
    assert(t.take(i) =~= server);
    lemma_cid_parse_digits(c);
}

/// The decimal text of a number parses back to it.
proof fn lemma_cid_parse_digits(c: u64)
    ensures
        parse_u64(decimal_text(c as nat)) == Some(c),
{
    lemma_decimal_text(c as nat);
}

} // verus!
