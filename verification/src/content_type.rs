//! Checking that a backend response is declared as JSON.
use vstd::prelude::*;
use crate::text::{ascii_ci_eq, trim, utf8_text, split_seq, lemma_split_nonempty, byte_views, split_on_byte, utf8_decode, str_trim, str_eq, str_eq_ignore_ascii_case};

verus! {

/// What the `Content-Type` headers of a response say about JSON.
#[derive(Debug, Clone, Copy, PartialEq, Eq, Structural)]
pub enum ContentType {
    /// No `Content-Type` header.
    Absent,
    /// Exactly one `Content-Type` header, and it declares UTF-8 JSON.
    Valid,
    /// Anything else.
    Invalid,
}

/// The header name `Content-Type`, compared ignoring ASCII case.
pub open spec fn is_content_type_name(name: Seq<char>) -> bool {
    ascii_ci_eq(name, "Content-Type"@)
}

/// The media type part (before the first `;`) names `application/json`.
pub open spec fn json_media_type(first: Seq<u8>) -> bool {
    match utf8_text(first) {
        Some(t) => ascii_ci_eq(trim(t), "application/json"@),
        None => false,
    }
}

/// A `key=value` parameter is acceptable: unless its key is `charset`, anything
/// goes; a `charset` must be `utf-8` or `utf8`.
pub open spec fn acceptable_param(chunk: Seq<u8>) -> bool {
    let parts = split_seq(chunk, 61u8);
    match utf8_text(parts[0]) {
        Some(k) => trim(k) == "charset"@ ==> {
            &&& parts.len() >= 2
            &&& match utf8_text(parts[1]) {
                Some(c) => trim(c) == "utf-8"@ || trim(c) == "utf8"@,
                None => false,
            }
        },
        None => true,
    }
}

/// A `Content-Type` value that declares UTF-8 JSON.
pub open spec fn json_content_type(value: Seq<u8>) -> bool {
    let chunks = split_seq(value, 59u8);
    &&& json_media_type(chunks[0])
    &&& forall|j: int| 1 <= j < chunks.len() ==> #[trigger] acceptable_param(chunks[j])
}

/// Name and value of each header.
pub open spec fn header_views(h: Seq<(&str, &[u8])>) -> Seq<(Seq<char>, Seq<u8>)> {
    h.map_values(|p: (&str, &[u8])| (p.0@, p.1@))
}

/// The headers named `Content-Type`, in order.
pub open spec fn content_type_headers(h: Seq<(Seq<char>, Seq<u8>)>) -> Seq<(Seq<char>, Seq<u8>)> {
    h.filter(|p: (Seq<char>, Seq<u8>)| is_content_type_name(p.0))
}

/// What `check_json` answers for the headers `h`.
pub open spec fn json_check(h: Seq<(Seq<char>, Seq<u8>)>) -> ContentType {
    let m = content_type_headers(h);
    if m.len() == 0 {
        ContentType::Absent
    } else if m.len() == 1 && json_content_type(m[0].1) {
        ContentType::Valid
    } else {
        ContentType::Invalid
    }
}

/// Which headers are named `Content-Type`: none, or exactly one.
proof fn lemma_content_type_headers(h: Seq<(Seq<char>, Seq<u8>)>)
    ensures
        content_type_headers(h).len() == 0 <==> forall|i: int|
            0 <= i < h.len() ==> !is_content_type_name(#[trigger] h[i].0),
        forall|i: int|
            0 <= i < h.len() && is_content_type_name(#[trigger] h[i].0) && (forall|j: int|
                0 <= j < h.len() && j != i ==> !is_content_type_name(h[j].0))
                ==> content_type_headers(h) == seq![h[i]],
        content_type_headers(h).len() == 1 ==> exists|i: int|
            0 <= i < h.len() && is_content_type_name(#[trigger] h[i].0) && (forall|j: int|
                0 <= j < h.len() && j != i ==> !is_content_type_name(h[j].0))
                && content_type_headers(h)[0] == h[i],
    decreases h.len(),
{
    if h.len() > 0 {
        let p = h.drop_last();
        let x = h.last();
        lemma_content_type_headers(p);
        assert(h[h.len() - 1] == x);
        reveal(Seq::filter);
        assert(content_type_headers(h) == if is_content_type_name(x.0) {
            content_type_headers(p).push(x)
        } else {
            content_type_headers(p)
        });
        assert forall|i: int| 0 <= i < p.len() implies #[trigger] p[i] == h[i] by {}
        if forall|i: int| 0 <= i < h.len() ==> !is_content_type_name(#[trigger] h[i].0) {
            assert(forall|i: int| 0 <= i < p.len() ==> !is_content_type_name(#[trigger] p[i].0));
            assert(!is_content_type_name(h[h.len() - 1].0));
        }
        if content_type_headers(h).len() == 0 {
            assert forall|i: int| 0 <= i < h.len() implies !is_content_type_name(#[trigger] h[i].0) by {
                if i < p.len() {
                    assert(p[i] == h[i]);
                }
            }
        }
        assert forall|i: int|
            0 <= i < h.len() && is_content_type_name(#[trigger] h[i].0) && (forall|j: int|
                0 <= j < h.len() && j != i ==> !is_content_type_name(h[j].0)) implies content_type_headers(h)
            == seq![h[i]] by {
            if i < p.len() {
                assert(!is_content_type_name(h[h.len() - 1].0));
                assert(is_content_type_name(p[i].0));
                assert forall|j: int| 0 <= j < p.len() && j != i implies !is_content_type_name(p[j].0) by {
                    assert(p[j] == h[j]);
                }
            } else {
                assert forall|j: int| 0 <= j < p.len() implies !is_content_type_name(#[trigger] p[j].0) by {
                    assert(p[j] == h[j]);
                }
                assert(content_type_headers(p).len() == 0);
                assert(content_type_headers(h) =~= seq![h[i]]);
            }
        }
        if content_type_headers(h).len() == 1 {
            if is_content_type_name(x.0) {
                let i = h.len() - 1;
                assert(content_type_headers(p).len() == 0);
                assert forall|j: int| 0 <= j < h.len() && j != i implies !is_content_type_name(h[j].0) by {
                    assert(p[j] == h[j]);
                }
                assert(is_content_type_name(h[i].0));
            } else {
                let i = choose|i: int|
                    0 <= i < p.len() && is_content_type_name(#[trigger] p[i].0) && (forall|j: int|
                        0 <= j < p.len() && j != i ==> !is_content_type_name(p[j].0))
                        && content_type_headers(p)[0] == p[i];
                assert(is_content_type_name(h[i].0));
                assert forall|j: int| 0 <= j < h.len() && j != i implies !is_content_type_name(h[j].0) by {
                    if j < p.len() {
                        assert(p[j] == h[j]);
                    }
                }
            }
        }
    }
}

/// Law: a response is JSON exactly where one header alone is named
/// `Content-Type` (in any ASCII case) and its value declares UTF-8 JSON;
/// the type is absent exactly where no header has that name.
pub proof fn law_json_check(h: Seq<(Seq<char>, Seq<u8>)>)
    ensures
        json_check(h) == ContentType::Absent <==> forall|i: int|
            0 <= i < h.len() ==> !is_content_type_name(#[trigger] h[i].0),
        json_check(h) == ContentType::Valid <==> exists|i: int|
            0 <= i < h.len() && is_content_type_name(#[trigger] h[i].0) && json_content_type(h[i].1)
                && forall|j: int| 0 <= j < h.len() && j != i ==> !is_content_type_name(h[j].0),
{
    lemma_content_type_headers(h);
    if exists|i: int|
        0 <= i < h.len() && is_content_type_name(#[trigger] h[i].0) && json_content_type(h[i].1)
            && forall|j: int| 0 <= j < h.len() && j != i ==> !is_content_type_name(h[j].0) {
        let i = choose|i: int|
            0 <= i < h.len() && is_content_type_name(#[trigger] h[i].0) && json_content_type(h[i].1)
                && forall|j: int| 0 <= j < h.len() && j != i ==> !is_content_type_name(h[j].0);
        assert(content_type_headers(h) == seq![h[i]]);
        assert(content_type_headers(h)[0] == h[i]);
    }
}

fn acceptable_param_exec(chunk: &[u8]) -> (r: bool)
    ensures
        r == acceptable_param(chunk@),
{
    let parts = split_on_byte(chunk, 61u8);
    proof {
        lemma_split_nonempty(chunk@, 61u8);
        assert(parts@[0]@ == split_seq(chunk@, 61u8)[0]);
    }
    match utf8_decode(parts[0].as_slice()) {
        Some(k) => {
            if str_eq(str_trim(k), "charset") {
                if parts.len() < 2 {
                    return false;
                }
                proof {
                    assert(parts@[1]@ == split_seq(chunk@, 61u8)[1]);
                }
                match utf8_decode(parts[1].as_slice()) {
                    Some(c) => {
                        let t = str_trim(c);
                        str_eq(t, "utf-8") || str_eq(t, "utf8")
                    },
                    None => false,
                }
            } else {
                true
            }
        },
        None => true,
    }
}

fn json_content_type_exec(value: &[u8]) -> (r: bool)
    ensures
        r == json_content_type(value@),
{
    let chunks = split_on_byte(value, 59u8);
    let ghost spec_chunks = split_seq(value@, 59u8);
    proof {
        lemma_split_nonempty(value@, 59u8);
        assert(chunks@[0]@ == spec_chunks[0]);
    }
    match utf8_decode(chunks[0].as_slice()) {
        Some(s) => {
            if !str_eq_ignore_ascii_case(str_trim(s), "application/json") {
                return false;
            }
        },
        None => {
            return false;
        },
    }
    let mut j: usize = 1;
    while j < chunks.len()
        invariant
            1 <= j <= chunks.len(),
            byte_views(chunks@) == spec_chunks,
            spec_chunks == split_seq(value@, 59u8),
            json_media_type(spec_chunks[0]),
            forall|k: int| 1 <= k < j ==> #[trigger] acceptable_param(spec_chunks[k]),
        decreases chunks.len() - j,
    {
        proof {
            assert(chunks@[j as int]@ == spec_chunks[j as int]);
        }
        if !acceptable_param_exec(chunks[j].as_slice()) {
            return false;
        }
        j = j + 1;
    }
    true
}

proof fn lemma_filter_prefix_grows(
    h: Seq<(Seq<char>, Seq<u8>)>,
    i: int,
)
    requires
        0 <= i <= h.len(),
    ensures
        content_type_headers(h).len() >= content_type_headers(h.take(i)).len(),
        forall|k: int|
            0 <= k < content_type_headers(h.take(i)).len() ==> content_type_headers(h)[k]
                == #[trigger] content_type_headers(h.take(i))[k],
{
    let f = |p: (Seq<char>, Seq<u8>)| is_content_type_name(p.0);
    assert(h == h.take(i) + h.skip(i));
    Seq::filter_distributes_over_add(h.take(i), h.skip(i), f);
}

/// Checks the `Content-Type` headers of a backend response: `Absent` where
/// there is none, `Valid` where there is exactly one and it declares
/// `application/json` with no charset other than UTF-8, else `Invalid`.
pub fn check_json(headers: &[(&str, &[u8])]) -> (r: ContentType)
    ensures
        r == json_check(header_views(headers@)),
{
    let ghost h = header_views(headers@);
    let ghost f = |p: (Seq<char>, Seq<u8>)| is_content_type_name(p.0);
    let mut cur = ContentType::Absent;
    let mut i: usize = 0;
    proof {
        assert(h.take(0) =~= Seq::<(Seq<char>, Seq<u8>)>::empty());
        reveal(Seq::filter);
    }
    while i < headers.len()
        invariant
            i <= headers.len(),
            h == header_views(headers@),
            f == (|p: (Seq<char>, Seq<u8>)| is_content_type_name(p.0)),
            cur == ContentType::Absent <==> content_type_headers(h.take(i as int)).len() == 0,
            cur != ContentType::Invalid,
            cur == ContentType::Valid ==> {
                &&& content_type_headers(h.take(i as int)).len() == 1
                &&& json_content_type(content_type_headers(h.take(i as int))[0].1)
            },
        decreases headers.len() - i,
    {
        let (name, value) = headers[i];
        proof {
            assert(h.take(i + 1) =~= h.take(i as int).push(h[i as int]));
            h.take(i as int).lemma_filter_push(h[i as int], f);
            assert(h[i as int] == (name@, value@));
        }
        if str_eq_ignore_ascii_case(name, "Content-Type") {
            match cur {
                ContentType::Absent => {
                    if !json_content_type_exec(value) {
                        proof {
                            assert(f(h[i as int]));
                            assert(content_type_headers(h.take(i + 1)) =~= seq![h[i as int]]);
                            lemma_filter_prefix_grows(h, i + 1);
                            assert(content_type_headers(h)[0] == content_type_headers(
                                h.take(i + 1),
                            )[0]);
                        }
                        return ContentType::Invalid;
                    }
                    cur = ContentType::Valid;
                },
                _ => {
                    proof {
                        lemma_filter_prefix_grows(h, i + 1);
                    }
                    return ContentType::Invalid;
                },
            }
        }
        i = i + 1;
    }
    proof {
        assert(h.take(headers.len() as int) =~= h);
    }
    cur
}

} // verus!
