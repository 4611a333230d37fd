//! Byte and text helpers shared by the header and message parsers.
use vstd::prelude::*;
use vstd::utf8::*;

verus! {

/// ASCII lowercase of one character; other characters are unchanged.
pub open spec fn ascii_lower(c: char) -> char {
    if 'A' <= c && c <= 'Z' {
        ((c as u32) + 32) as char
    } else {
        c
    }
}

/// Two strings are equal once their ASCII letters are lowercased.
pub open spec fn ascii_ci_eq(a: Seq<char>, b: Seq<char>) -> bool {
    &&& a.len() == b.len()
    &&& forall|i: int| 0 <= i < a.len() ==> #[trigger] ascii_lower(a[i]) == ascii_lower(b[i])
}

/// The Unicode `White_Space` property.
pub open spec fn is_unicode_whitespace(c: char) -> bool {
    let u = c as u32;
    ||| 0x09 <= u <= 0x0d
    ||| u == 0x20
    ||| u == 0x85
    ||| u == 0xa0
    ||| u == 0x1680
    ||| 0x2000 <= u <= 0x200a
    ||| u == 0x2028
    ||| u == 0x2029
    ||| u == 0x202f
    ||| u == 0x205f
    ||| u == 0x3000
}

/// `s` without its leading whitespace.
pub open spec fn trim_start(s: Seq<char>) -> Seq<char>
    decreases s.len(),
{
    if s.len() > 0 && is_unicode_whitespace(s[0]) {
        trim_start(s.drop_first())
    } else {
        s
    }
}

/// `s` without its trailing whitespace.
pub open spec fn trim_end(s: Seq<char>) -> Seq<char>
    decreases s.len(),
{
    if s.len() > 0 && is_unicode_whitespace(s.last()) {
        trim_end(s.drop_last())
    } else {
        s
    }
}

/// `s` without leading and trailing whitespace.
pub open spec fn trim(s: Seq<char>) -> Seq<char> {
    trim_end(trim_start(s))
}

/// The text that `bytes` encode, where they are valid UTF-8.
pub open spec fn utf8_text(bytes: Seq<u8>) -> Option<Seq<char>> {
    if valid_utf8(bytes) {
        Some(decode_utf8(bytes))
    } else {
        None
    }
}

/// The pieces of `s` between occurrences of `sep` (there is always at least
/// one piece; `sep` itself is in none of them).
pub open spec fn split_seq<A>(s: Seq<A>, sep: A) -> Seq<Seq<A>>
    decreases s.len(),
{
    if s.len() == 0 {
        seq![Seq::<A>::empty()]
    } else {
        let prev = split_seq(s.drop_last(), sep);
        if s.last() == sep {
            prev.push(Seq::<A>::empty())
        } else {
            prev.update(prev.len() - 1, prev.last().push(s.last()))
        }
    }
}

pub proof fn lemma_split_nonempty<A>(s: Seq<A>, sep: A)
    ensures
        split_seq(s, sep).len() >= 1,
    decreases s.len(),
{
    if s.len() > 0 {
        lemma_split_nonempty(s.drop_last(), sep);
    }
}

/// Law: the first piece of `s` is what comes before its first `sep`, and
/// more pieces follow; where `s` holds no `sep`, it is the only piece.
pub proof fn law_split_first<A>(s: Seq<A>, sep: A)
    ensures
        forall|i: int|
            0 <= i < s.len() && s[i] == sep && (forall|j: int| 0 <= j < i ==> s[j] != sep)
                ==> #[trigger] split_seq(s, sep).len() > 1 && split_seq(s, sep)[0] == s.take(i),
        (forall|i: int| 0 <= i < s.len() ==> s[i] != sep) ==> split_seq(s, sep) == seq![s],
    decreases s.len(),
{
    lemma_split_nonempty(s, sep);
    if s.len() == 0 {
        assert(s =~= Seq::<A>::empty());
        assert(split_seq(s, sep) =~= seq![s]);
    } else {
        let p = s.drop_last();
        let c = s.last();
        assert(s =~= p.push(c));
        law_split_first(p, sep);
        lemma_split_nonempty(p, sep);
        let prev = split_seq(p, sep);
        assert(s[s.len() - 1] == c);
        assert forall|i: int| 0 <= i < p.len() implies #[trigger] p[i] == s[i] by {}
        assert forall|i: int|
            0 <= i < s.len() && s[i] == sep && (forall|j: int| 0 <= j < i ==> s[j] != sep) implies #[trigger] split_seq(
            s,
            sep,
        ).len() > 1 && split_seq(s, sep)[0] == s.take(i) by {
            if i < p.len() {
                assert(p[i] == sep);
                assert(forall|j: int| 0 <= j < i ==> p[j] != sep);
                assert(split_seq(p, sep).len() > 1);
                assert(s.take(i) =~= p.take(i));
            } else {
                assert(forall|j: int| 0 <= j < p.len() ==> p[j] != sep);
                assert(prev =~= seq![p]);
                assert(s.take(i) =~= p);
            }
        }
        if forall|i: int| 0 <= i < s.len() ==> s[i] != sep {
            assert(forall|j: int| 0 <= j < p.len() ==> p[j] != sep);
            assert(prev =~= seq![p]);
            assert(c != sep);
            assert(split_seq(s, sep) == prev.update(0, p.push(c)));
            assert(split_seq(s, sep) =~= seq![s]);
        }
    }
}

/// Law: a piece without `sep` followed by `sep` is the first piece, and
/// the pieces of the rest follow it.
pub proof fn law_split_prefix<A>(a: Seq<A>, b: Seq<A>, sep: A)
    requires
        forall|i: int| 0 <= i < a.len() ==> a[i] != sep,
    ensures
        split_seq(a + seq![sep] + b, sep) == seq![a] + split_seq(b, sep),
    decreases b.len(),
{
    let s = a + seq![sep] + b;
    if b.len() == 0 {
        assert(s =~= a.push(sep));
        assert(s.drop_last() =~= a);
        law_split_first(a, sep);
        assert(b =~= Seq::<A>::empty());
        assert(split_seq(s, sep) =~= seq![a] + split_seq(b, sep));
    } else {
        let p = b.drop_last();
        let c = b.last();
        law_split_prefix(a, p, sep);
        lemma_split_nonempty(p, sep);
        assert(s.drop_last() =~= a + seq![sep] + p);
        assert(s.last() == c);
        let prev = split_seq(p, sep);
        if c == sep {
            assert(split_seq(s, sep) =~= seq![a] + split_seq(b, sep));
        } else {
            assert(split_seq(b, sep) == prev.update(prev.len() - 1, prev.last().push(c)));
            assert(split_seq(s, sep) =~= seq![a] + split_seq(b, sep));
        }
    }
}

/// The first piece of a sequence that does not start with `sep` is not
/// empty.
pub proof fn lemma_first_piece_nonempty<A>(s: Seq<A>, sep: A)
    requires
        s.len() > 0,
        s[0] != sep,
    ensures
        split_seq(s, sep)[0].len() > 0,
    decreases s.len(),
{
    lemma_split_nonempty(s, sep);
    let p = s.drop_last();
    let prev = split_seq(p, sep);
    lemma_split_nonempty(p, sep);
    if s.len() == 1 {
        assert(p =~= Seq::<A>::empty());
        assert(s.last() == s[0]);
        assert(split_seq(s, sep)[0] == prev.last().push(s.last()));
    } else {
        assert(p[0] == s[0]);
        lemma_first_piece_nonempty(p, sep);
        if s.last() == sep {
            assert(split_seq(s, sep)[0] == prev[0]);
        } else if prev.len() == 1 {
            assert(split_seq(s, sep)[0] == prev[0].push(s.last()));
        } else {
            assert(split_seq(s, sep)[0] == prev[0]);
        }
    }
}

/// Decodes `bytes` as UTF-8 with `std::str::from_utf8`: `None` exactly
/// where the bytes are not valid UTF-8, else the text they encode.
#[verifier::external_body]
pub(crate) fn utf8_decode(bytes: &[u8]) -> (r: Option<&str>)
    ensures
        r matches Some(s) ==> utf8_text(bytes@) == Some(s@),
        r is None ==> utf8_text(bytes@) is None,
{
    std::str::from_utf8(bytes).ok()
}

/// `str::trim`: the slice without leading and trailing characters of the
/// Unicode `White_Space` property.
#[verifier::external_body]
pub(crate) fn str_trim(s: &str) -> (r: &str)
    ensures
        r@ == trim(s@),
{
    s.trim()
}

/// Whether the two strings are equal once their ASCII letters are
/// lowercased.
pub(crate) fn str_eq_ignore_ascii_case(a: &str, b: &str) -> (r: bool)
    ensures
        r == ascii_ci_eq(a@, b@),
{
    let av = str_chars(a);
    let bv = str_chars(b);
    if av.len() != bv.len() {
        return false;
    }
    let mut i: usize = 0;
    while i < av.len()
        invariant
            av@ == a@,
            bv@ == b@,
            av@.len() == bv@.len(),
            i <= av@.len(),
            forall|k: int| 0 <= k < i ==> #[trigger] ascii_lower(a@[k]) == ascii_lower(b@[k]),
        decreases av.len() - i,
    {
        let x = av[i] as u32;
        let y = bv[i] as u32;
        let lx = if 65 <= x && x <= 90 { x + 32 } else { x };
        let ly = if 65 <= y && y <= 90 { y + 32 } else { y };
        proof {
            assert(ascii_lower(av@[i as int]) as u32 == lx);
            assert(ascii_lower(bv@[i as int]) as u32 == ly);
        }
        if lx != ly {
            proof {
                assert(!(ascii_lower(a@[i as int]) == ascii_lower(b@[i as int])));
            }
            return false;
        }
        i = i + 1;
    }
    true
}

/// Whether the two strings are equal.
pub(crate) fn str_eq(a: &str, b: &str) -> (r: bool)
    ensures
        r == (a@ == b@),
{
    let av = str_chars(a);
    let bv = str_chars(b);
    if av.len() != bv.len() {
        return false;
    }
    let mut i: usize = 0;
    while i < av.len()
        invariant
            av@ == a@,
            bv@ == b@,
            av@.len() == bv@.len(),
            i <= av@.len(),
            forall|k: int| 0 <= k < i ==> a@[k] == b@[k],
        decreases av.len() - i,
    {
        if av[i] != bv[i] {
            return false;
        }
        i = i + 1;
    }
    proof {
        assert(a@ =~= b@);
    }
    true
}

/// The contents of each byte vector.
pub open spec fn byte_views(v: Seq<Vec<u8>>) -> Seq<Seq<u8>> {
    v.map_values(|b: Vec<u8>| b@)
}

/// Splits `v` at every `sep` byte.
pub fn split_on_byte(v: &[u8], sep: u8) -> (r: Vec<Vec<u8>>)
    ensures
        byte_views(r@) == split_seq(v@, sep),
{
    let mut done: Vec<Vec<u8>> = Vec::new();
    let mut cur: Vec<u8> = Vec::new();
    let mut i: usize = 0;
    proof {
        assert(v@.take(0) =~= Seq::<u8>::empty());
        assert(byte_views(done@).push(cur@) =~= split_seq(v@.take(0), sep));
    }
    while i < v.len()
        invariant
            i <= v.len(),
            byte_views(done@).push(cur@) =~= split_seq(v@.take(i as int), sep),
        decreases v.len() - i,
    {
        let b = v[i];
        let ghost prev = byte_views(done@).push(cur@);
        proof {
            assert(v@.take(i + 1).drop_last() =~= v@.take(i as int));
            assert(v@.take(i + 1).last() == b);
        }
        if b == sep {
            let ghost old_done = done@;
            let finished = cur;
            done.push(finished);
            cur = Vec::new();
            proof {
                assert(byte_views(done@) =~= prev);
                assert(byte_views(done@).push(cur@) =~= prev.push(Seq::<u8>::empty()));
            }
        } else {
            cur.push(b);
            proof {
                assert(byte_views(done@).push(cur@) =~= prev.update(
                    prev.len() - 1,
                    prev.last().push(b),
                ));
            }
        }
        i = i + 1;
    }
    proof {
        assert(v@.take(v.len() as int) =~= v@);
    }
    let ghost before = byte_views(done@).push(cur@);
    done.push(cur);
    proof {
        assert(byte_views(done@) =~= before);
    }
    done
}

/// The contents of each character vector.
pub open spec fn char_views(v: Seq<Vec<char>>) -> Seq<Seq<char>> {
    v.map_values(|b: Vec<char>| b@)
}

/// Splits `v` at every `sep` character.
pub fn split_on_char(v: &[char], sep: char) -> (r: Vec<Vec<char>>)
    ensures
        char_views(r@) == split_seq(v@, sep),
{
    let mut done: Vec<Vec<char>> = Vec::new();
    let mut cur: Vec<char> = Vec::new();
    let mut i: usize = 0;
    proof {
        assert(v@.take(0) =~= Seq::<char>::empty());
        assert(char_views(done@).push(cur@) =~= split_seq(v@.take(0), sep));
    }
    while i < v.len()
        invariant
            i <= v.len(),
            char_views(done@).push(cur@) =~= split_seq(v@.take(i as int), sep),
        decreases v.len() - i,
    {
        let b = v[i];
        let ghost prev = char_views(done@).push(cur@);
        proof {
            assert(v@.take(i + 1).drop_last() =~= v@.take(i as int));
            assert(v@.take(i + 1).last() == b);
        }
        if b == sep {
            let finished = cur;
            done.push(finished);
            cur = Vec::new();
            proof {
                assert(char_views(done@) =~= prev);
                assert(char_views(done@).push(cur@) =~= prev.push(Seq::<char>::empty()));
            }
        } else {
            cur.push(b);
            proof {
                assert(char_views(done@).push(cur@) =~= prev.update(
                    prev.len() - 1,
                    prev.last().push(b),
                ));
            }
        }
        i = i + 1;
    }
    proof {
        assert(v@.take(v.len() as int) =~= v@);
    }
    let ghost before = char_views(done@).push(cur@);
    done.push(cur);
    proof {
        assert(char_views(done@) =~= before);
    }
    done
}

/// The characters of `s`.
pub fn str_chars(s: &str) -> (r: Vec<char>)
    ensures
        r@ == s@,
{
    let mut r: Vec<char> = Vec::new();
    for c in it: s.chars()
        invariant
            it.seq() == s@,
            r@ == s@.take(it.index() as int),
    {
        proof {
            assert(s@.take(it.index() + 1) =~= s@.take(it.index() as int).push(c));
        }
        r.push(c);
    }
    proof {
        assert(s@.take(s@.len() as int) =~= s@);
    }
    r
}

/// Whether `v[start..end]` spells `lit`.
pub fn chars_eq_str(v: &[char], start: usize, end: usize, lit: &str) -> (r: bool)
    requires
        start <= end <= v@.len(),
    ensures
        r == (v@.subrange(start as int, end as int) == lit@),
{
    let l = str_chars(lit);
    if l.len() != end - start {
        return false;
    }
    let mut i: usize = 0;
    while i < l.len()
        invariant
            i <= l.len(),
            l.len() == end - start,
            start <= end <= v@.len(),
            l@ == lit@,
            forall|k: int| 0 <= k < i ==> v@[start + k] == l@[k],
        decreases l.len() - i,
    {
        if v[start + i] != l[i] {
            proof {
                assert(v@.subrange(start as int, end as int)[i as int] != lit@[i as int]);
            }
            return false;
        }
        i = i + 1;
    }
    proof {
        assert(v@.subrange(start as int, end as int) =~= lit@);
    }
    true
}

/// `String::push`: appends one character.
#[verifier::external_body]
pub(crate) fn string_push(s: &mut String, c: char)
    ensures
        final(s)@ == old(s)@.push(c),
{
    s.push(c)
}

/// `v[start..]` with every `from` character replaced by `to`.
pub open spec fn replace_char(s: Seq<char>, from: char, to: char) -> Seq<char> {
    s.map_values(|c: char| if c == from { to } else { c })
}

/// The text of `v[start..]`, every `from` replaced by `to`.
pub fn tail_replacing(v: &[char], start: usize, from: char, to: char) -> (r: String)
    requires
        start <= v@.len(),
    ensures
        r@ == replace_char(v@.skip(start as int), from, to),
{
    let mut r = String::new();
    let mut i: usize = start;
    proof {
        assert(replace_char(v@.subrange(start as int, start as int), from, to) =~= r@);
    }
    while i < v.len()
        invariant
            start <= i <= v@.len(),
            r@ == replace_char(v@.subrange(start as int, i as int), from, to),
        decreases v.len() - i,
    {
        let c = v[i];
        let d = if c == from { to } else { c };
        string_push(&mut r, d);
        proof {
            assert(replace_char(v@.subrange(start as int, i + 1), from, to) =~= replace_char(
                v@.subrange(start as int, i as int),
                from,
                to,
            ).push(d));
        }
        i = i + 1;
    }
    proof {
        assert(v@.subrange(start as int, v@.len() as int) =~= v@.skip(start as int));
    }
    r
}

/// The text of `v[start..end]`.
pub fn chars_range(v: &[char], start: usize, end: usize) -> (r: String)
    requires
        start <= end <= v@.len(),
    ensures
        r@ == v@.subrange(start as int, end as int),
{
    let mut r = String::new();
    let mut i: usize = start;
    proof {
        assert(v@.subrange(start as int, start as int) =~= r@);
    }
    while i < end
        invariant
            start <= i <= end <= v@.len(),
            r@ == v@.subrange(start as int, i as int),
        decreases end - i,
    {
        string_push(&mut r, v[i]);
        proof {
            assert(v@.subrange(start as int, i + 1) =~= v@.subrange(start as int, i as int).push(v@[i as int]));
        }
        i = i + 1;
    }
    r
}

} // verus!
