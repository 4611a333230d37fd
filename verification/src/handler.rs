//! Routes of the pull (HTTP) chat API.
use vstd::prelude::*;
use crate::text::{split_seq, split_on_char, str_chars, chars_eq_str, replace_char, tail_replacing, lemma_split_nonempty, law_split_prefix, lemma_first_piece_nonempty};
use crate::message::str_starts_with;

verus! {

/// An HTTP request method.
#[derive(Debug, PartialEq, Eq, Structural)]
pub enum Method {
    Options,
    Get,
    Head,
    Post,
    Put,
    Delete,
    Trace,
    Connect,
    Patch,
}

/// A request of the pull API, with topics and namespaces in dotted form.
#[derive(Debug, PartialEq, Eq)]
pub enum ChatRoute {
    /// `PUT /v1/connection/<id>/subscriptions/<topic>`
    TopicSubscribe(String, String),
    /// `DELETE /v1/connection/<id>/subscriptions/<topic>`
    TopicUnsubscribe(String, String),
    /// `PUT /v1/connection/<id>/lattices/<namespace>`
    LatticeSubscribe(String, String),
    /// `DELETE /v1/connection/<id>/lattices/<namespace>`
    LatticeUnsubscribe(String, String),
    /// `POST /v1/topic/<topic>`
    TopicPublish(String),
    /// `POST /v1/lattice/<namespace>`
    LatticeUpdate(String),
}

impl ChatRoute {
    /// Whether the route takes a request body.
    pub fn expect_data(&self) -> (r: bool)
        ensures
            r == (self is LatticeSubscribe || self is TopicPublish || self is LatticeUpdate),
    {
        match self {
            ChatRoute::TopicSubscribe(_, _) => false,
            ChatRoute::TopicUnsubscribe(_, _) => false,
            ChatRoute::LatticeSubscribe(_, _) => true,
            ChatRoute::LatticeUnsubscribe(_, _) => false,
            ChatRoute::TopicPublish(_) => true,
            ChatRoute::LatticeUpdate(_) => true,
        }
    }
}

/// A `ChatRoute` by the text of its parts.
pub enum ChatRouteView {
    TopicSubscribe(Seq<char>, Seq<char>),
    TopicUnsubscribe(Seq<char>, Seq<char>),
    LatticeSubscribe(Seq<char>, Seq<char>),
    LatticeUnsubscribe(Seq<char>, Seq<char>),
    TopicPublish(Seq<char>),
    LatticeUpdate(Seq<char>),
}

impl View for ChatRoute {
    type V = ChatRouteView;

    open spec fn view(&self) -> ChatRouteView {
        match self {
            ChatRoute::TopicSubscribe(a, b) => ChatRouteView::TopicSubscribe(a@, b@),
            ChatRoute::TopicUnsubscribe(a, b) => ChatRouteView::TopicUnsubscribe(a@, b@),
            ChatRoute::LatticeSubscribe(a, b) => ChatRouteView::LatticeSubscribe(a@, b@),
            ChatRoute::LatticeUnsubscribe(a, b) => ChatRouteView::LatticeUnsubscribe(a@, b@),
            ChatRoute::TopicPublish(a) => ChatRouteView::TopicPublish(a@),
            ChatRoute::LatticeUpdate(a) => ChatRouteView::LatticeUpdate(a@),
        }
    }
}

/// A path remainder with `/` turned into `.`.
pub open spec fn dotted(s: Seq<char>) -> Seq<char> {
    replace_char(s, '/', '.')
}

/// The part of `path` after its `k`-th `/` (with `k` segments before it).
pub open spec fn tail_after(path: Seq<char>, k: int) -> Seq<char> {
    path.skip(k + sum_lens(split_seq(path, '/').take(k)))
}

/// The route that `method` on `path` requests: the path is cut at `/`
/// into segments, of which the first two are `""` and `"v1"`.
pub open spec fn chat_route(method: Method, path: Seq<char>) -> Option<ChatRouteView> {
    let segs = split_seq(path, '/');
    if !"/v1/"@.is_prefix_of(path) {
        None
    } else if method == Method::Post {
        if segs.len() > 3 && segs[3].len() > 0 {
            if segs[2] == "lattice"@ {
                Some(ChatRouteView::LatticeUpdate(dotted(tail_after(path, 3))))
            } else if segs[2] == "topic"@ {
                Some(ChatRouteView::TopicPublish(dotted(tail_after(path, 3))))
            } else {
                None
            }
        } else {
            None
        }
    } else if method == Method::Put || method == Method::Delete {
        if segs.len() > 5 && segs[2] == "connection"@ && segs[3].len() > 0 && segs[5].len()
            > 0 {
            let id = segs[3];
            if segs[4] == "subscriptions"@ {
                let topic = dotted(tail_after(path, 5));
                if method == Method::Put {
                    Some(ChatRouteView::TopicSubscribe(id, topic))
                } else {
                    Some(ChatRouteView::TopicUnsubscribe(id, topic))
                }
            } else if segs[4] == "lattices"@ {
                let ns = dotted(tail_after(path, 5));
                if method == Method::Put {
                    Some(ChatRouteView::LatticeSubscribe(id, ns))
                } else {
                    Some(ChatRouteView::LatticeUnsubscribe(id, ns))
                }
            } else {
                None
            }
        } else {
            None
        }
    } else {
        None
    }
}

/// The lengths of a piece followed by more pieces.
proof fn lemma_sum_lens_prepend<A>(x: Seq<A>, s: Seq<Seq<A>>)
    ensures
        sum_lens(seq![x] + s) == x.len() + sum_lens(s),
    decreases s.len(),
{
    if s.len() == 0 {
        assert(seq![x] + s =~= seq![x]);
        assert(seq![x].drop_last() =~= Seq::<Seq<A>>::empty());
        assert(sum_lens(seq![x]) == sum_lens(seq![x].drop_last()) + seq![x].last().len());
    } else {
        lemma_sum_lens_prepend(x, s.drop_last());
        let t = seq![x] + s;
        assert(t.drop_last() =~= seq![x] + s.drop_last());
        assert(t.last() == s.last());
        assert(sum_lens(t) == sum_lens(t.drop_last()) + t.last().len());
    }
}

/// Lengths add up to no less than nothing.
proof fn lemma_sum_lens_nonneg<A>(s: Seq<Seq<A>>)
    ensures
        sum_lens(s) >= 0,
    decreases s.len(),
{
    if s.len() > 0 {
        lemma_sum_lens_nonneg(s.drop_last());
    }
}

/// What follows the `k + 1`-th `/` of a path whose first segment is `x`
/// is what follows the `k`-th of the rest.
pub(crate) proof fn lemma_tail_after_cons(x: Seq<char>, rest: Seq<char>, k: int)
    requires
        forall|i: int| 0 <= i < x.len() ==> x[i] != '/',
        0 <= k < split_seq(rest, '/').len(),
    ensures
        split_seq(x + seq!['/'] + rest, '/') == seq![x] + split_seq(rest, '/'),
        tail_after(x + seq!['/'] + rest, k + 1) == tail_after(rest, k),
{
    let path = x + seq!['/'] + rest;
    let r = split_seq(rest, '/');
    law_split_prefix(x, rest, '/');
    assert(split_seq(path, '/').take(k + 1) =~= seq![x] + r.take(k));
    lemma_sum_lens_prepend(x, r.take(k));
    lemma_split_len(rest, '/', k);
    lemma_sum_lens_nonneg(r.take(k));
    assert(sum_lens(split_seq(path, '/').take(k + 1)) == x.len() + sum_lens(r.take(k)));
    let n = k + sum_lens(r.take(k));
    assert(path.skip(k + 1 + sum_lens(split_seq(path, '/').take(k + 1))) == path.skip(
        x.len() + 1 + n,
    ));
    assert(path.skip(x.len() + 1 + n) =~= rest.skip(n));
}

/// A path segment that holds no `/`.
pub open spec fn is_segment(s: Seq<char>) -> bool {
    forall|i: int| 0 <= i < s.len() ==> s[i] != '/'
}

/// The segments of `/v1/<kind>/<rest>`, and what follows the third `/`.
proof fn lemma_v1_path(kind: Seq<char>, rest: Seq<char>)
    requires
        is_segment(kind),
    ensures
        ({
            let path = Seq::<char>::empty() + seq!['/'] + ("v1"@ + seq!['/'] + (kind + seq!['/']
                + rest));
            &&& split_seq(path, '/') == seq![Seq::<char>::empty(), "v1"@, kind] + split_seq(
                rest,
                '/',
            )
            &&& tail_after(path, 3) == rest
        }),
{
    reveal_strlit("v1");
    lemma_split_nonempty(rest, '/');
    assert(tail_after(rest, 0) =~= rest);
    let e = Seq::<char>::empty();
    let inner = kind + seq!['/'] + rest;
    let mid = "v1"@ + seq!['/'] + inner;
    let path = e + seq!['/'] + mid;
    lemma_tail_after_cons(kind, rest, 0);
    lemma_tail_after_cons("v1"@, inner, 1);
    lemma_tail_after_cons(e, mid, 2);
    assert(split_seq(path, '/') =~= seq![e, "v1"@, kind] + split_seq(rest, '/'));
}

/// Law: `POST /v1/topic/<topic>` publishes to the topic and
/// `POST /v1/lattice/<namespace>` updates the namespace, in dotted form,
/// for every name whose first segment is not empty.
pub proof fn law_chat_route_post(t: Seq<char>)
    requires
        t.len() > 0,
        t[0] != '/',
    ensures
        chat_route(Method::Post, "/v1/topic/"@ + t) == Some(ChatRouteView::TopicPublish(dotted(t))),
        chat_route(Method::Post, "/v1/lattice/"@ + t) == Some(
            ChatRouteView::LatticeUpdate(dotted(t)),
        ),
{
    reveal_strlit("/v1/topic/");
    reveal_strlit("/v1/lattice/");
    reveal_strlit("/v1/");
    reveal_strlit("v1");
    reveal_strlit("topic");
    reveal_strlit("lattice");
    lemma_split_nonempty(t, '/');
    lemma_first_piece_nonempty(t, '/');
    assert(tail_after(t, 0) =~= t);
    let e = Seq::<char>::empty();
    lemma_v1_path("topic"@, t);
    lemma_v1_path("lattice"@, t);
    assert("/v1/topic/"@ + t =~= e + seq!['/'] + ("v1"@ + seq!['/'] + ("topic"@ + seq!['/'] + t)));
    assert("/v1/lattice/"@ + t =~= e + seq!['/'] + ("v1"@ + seq!['/'] + ("lattice"@ + seq!['/']
        + t)));
    assert("/v1/"@.is_prefix_of("/v1/topic/"@ + t));
    assert("/v1/"@.is_prefix_of("/v1/lattice/"@ + t));
}

/// The segments of `/v1/connection/<id>/<kind>/<rest>`, and what follows
/// the fifth `/`.
proof fn lemma_v1_connection_path(id: Seq<char>, kind: Seq<char>, rest: Seq<char>)
    requires
        is_segment(id),
        is_segment(kind),
    ensures
        ({
            let path = "/v1/connection/"@ + id + seq!['/'] + kind + seq!['/'] + rest;
            &&& split_seq(path, '/') == seq![Seq::<char>::empty(), "v1"@, "connection"@, id, kind]
                + split_seq(rest, '/')
            &&& tail_after(path, 5) == rest
        }),
{
    reveal_strlit("/v1/connection/");
    reveal_strlit("v1");
    reveal_strlit("connection");
    lemma_split_nonempty(rest, '/');
    assert(tail_after(rest, 0) =~= rest);
    let e = Seq::<char>::empty();
    let a = kind + seq!['/'] + rest;
    let b = id + seq!['/'] + a;
    let c = "connection"@ + seq!['/'] + b;
    let d = "v1"@ + seq!['/'] + c;
    let path = e + seq!['/'] + d;
    lemma_tail_after_cons(kind, rest, 0);
    lemma_tail_after_cons(id, a, 1);
    lemma_tail_after_cons("connection"@, b, 2);
    lemma_tail_after_cons("v1"@, c, 3);
    lemma_tail_after_cons(e, d, 4);
    assert("/v1/connection/"@ + id + seq!['/'] + kind + seq!['/'] + rest =~= path);
    assert(split_seq(path, '/') =~= seq![e, "v1"@, "connection"@, id, kind] + split_seq(
        rest,
        '/',
    ));
}

/// Law: `PUT` and `DELETE` on `/v1/connection/<id>/subscriptions/<topic>`
/// subscribe connection `id` to the topic and unsubscribe it, and on
/// `/v1/connection/<id>/lattices/<namespace>` attach it to the namespace
/// and detach it, names in dotted form, for every id that is one segment
/// and every name whose first segment is not empty.
pub proof fn law_chat_route_connection(id: Seq<char>, t: Seq<char>)
    requires
        id.len() > 0,
        is_segment(id),
        t.len() > 0,
        t[0] != '/',
    ensures
        chat_route(Method::Put, "/v1/connection/"@ + id + "/subscriptions/"@ + t) == Some(
            ChatRouteView::TopicSubscribe(id, dotted(t)),
        ),
        chat_route(Method::Delete, "/v1/connection/"@ + id + "/subscriptions/"@ + t) == Some(
            ChatRouteView::TopicUnsubscribe(id, dotted(t)),
        ),
        chat_route(Method::Put, "/v1/connection/"@ + id + "/lattices/"@ + t) == Some(
            ChatRouteView::LatticeSubscribe(id, dotted(t)),
        ),
        chat_route(Method::Delete, "/v1/connection/"@ + id + "/lattices/"@ + t) == Some(
            ChatRouteView::LatticeUnsubscribe(id, dotted(t)),
        ),
{
    reveal_strlit("/v1/connection/");
    reveal_strlit("/subscriptions/");
    reveal_strlit("/lattices/");
    reveal_strlit("subscriptions");
    reveal_strlit("lattices");
    reveal_strlit("connection");
    reveal_strlit("/v1/");
    lemma_first_piece_nonempty(t, '/');
    lemma_v1_connection_path(id, "subscriptions"@, t);
    lemma_v1_connection_path(id, "lattices"@, t);
    let s = "/v1/connection/"@ + id + "/subscriptions/"@ + t;
    let l = "/v1/connection/"@ + id + "/lattices/"@ + t;
    assert(s =~= "/v1/connection/"@ + id + seq!['/'] + "subscriptions"@ + seq!['/'] + t);
    assert(l =~= "/v1/connection/"@ + id + seq!['/'] + "lattices"@ + seq!['/'] + t);
    assert("/v1/"@.is_prefix_of(s));
    assert("/v1/"@.is_prefix_of(l));
    lemma_split_nonempty(t, '/');
}

/// The characters of `v` as a string.
pub(crate) fn chars_to_string(v: &Vec<char>) -> (r: String)
    ensures
        r@ == v@,
{
    let r = tail_replacing(v.as_slice(), 0, '/', '/');
    proof {
        assert(r@ =~= v@);
    }
    r
}

/// The first `k` segments with their separators fit in the sequence.
pub(crate) proof fn lemma_split_len<A>(s: Seq<A>, sep: A, k: int)
    requires
        0 <= k < split_seq(s, sep).len(),
    ensures
        k + (sum_lens(split_seq(s, sep).take(k))) <= s.len(),
    decreases s.len(),
{
    lemma_split_nonempty(s, sep);
    if s.len() > 0 {
        let prev = split_seq(s.drop_last(), sep);
        lemma_split_nonempty(s.drop_last(), sep);
        let cur = split_seq(s, sep);
        if s.last() == sep {
            if k < prev.len() {
                lemma_split_len(s.drop_last(), sep, k);
                assert(cur.take(k) =~= prev.take(k));
            } else {
                lemma_split_len(s.drop_last(), sep, k - 1);
                assert(cur.take(k) =~= prev.take(k - 1).push(prev[k - 1]));
                lemma_sum_lens_push(prev.take(k - 1), prev[k - 1]);
                lemma_sum_lens_take_le(prev, k - 1);
                lemma_split_total(s.drop_last(), sep);
                lemma_sum_lens_take_all(prev);
            }
        } else {
            if k < prev.len() - 1 {
                lemma_split_len(s.drop_last(), sep, k);
                assert(cur.take(k) =~= prev.take(k));
            } else {
                lemma_split_len(s.drop_last(), sep, k);
                assert(cur.take(k) =~= prev.take(k));
            }
        }
    }
}

/// Total length of the pieces.
pub open spec fn sum_lens<A>(s: Seq<Seq<A>>) -> int
    decreases s.len(),
{
    if s.len() == 0 {
        0
    } else {
        sum_lens(s.drop_last()) + s.last().len()
    }
}

proof fn lemma_sum_lens_take_succ<A>(s: Seq<Seq<A>>, k: int)
    requires
        0 <= k < s.len(),
    ensures
        sum_lens(s.take(k + 1)) == sum_lens(s.take(k)) + s[k].len(),
{
    assert(s.take(k + 1).drop_last() =~= s.take(k));
}

proof fn lemma_sum_lens_push<A>(s: Seq<Seq<A>>, x: Seq<A>)
    ensures
        sum_lens(s.push(x)) == sum_lens(s) + x.len(),
{
    assert(s.push(x).drop_last() =~= s);
}

proof fn lemma_sum_lens_take_all<A>(s: Seq<Seq<A>>)
    ensures
        s.take(s.len() as int) == s,
{
    assert(s.take(s.len() as int) =~= s);
}

proof fn lemma_sum_lens_take_le<A>(s: Seq<Seq<A>>, k: int)
    requires
        0 <= k <= s.len(),
    ensures
        sum_lens(s.take(k)) <= sum_lens(s),
    decreases s.len() - k,
{
    if k < s.len() {
        lemma_sum_lens_take_le(s, k + 1);
        assert(s.take(k + 1).drop_last() =~= s.take(k));
    } else {
        assert(s.take(k) =~= s);
    }
}

/// The pieces and the separators between them make up the whole sequence.
proof fn lemma_split_total<A>(s: Seq<A>, sep: A)
    ensures
        split_seq(s, sep).len() - 1 + sum_lens(split_seq(s, sep)) == s.len(),
    decreases s.len(),
{
    lemma_split_nonempty(s, sep);
    if s.len() > 0 {
        let prev = split_seq(s.drop_last(), sep);
        lemma_split_total(s.drop_last(), sep);
        lemma_split_nonempty(s.drop_last(), sep);
        if s.last() == sep {
            lemma_sum_lens_push(prev, Seq::<A>::empty());
        } else {
            let cur = split_seq(s, sep);
            assert(cur.drop_last() =~= prev.drop_last());
            assert(cur.last() == prev.last().push(s.last()));
            assert(sum_lens(cur) == sum_lens(cur.drop_last()) + cur.last().len());
            assert(sum_lens(prev) == sum_lens(prev.drop_last()) + prev.last().len());
        }
    } else {
        let cur = split_seq(s, sep);
        assert(cur.drop_last() =~= Seq::<Seq<A>>::empty());
        assert(sum_lens(cur) == sum_lens(cur.drop_last()) + cur.last().len());
    }
}

/// Offset of the part of the path after its `k`-th `/`.
pub(crate) fn tail_offset(segs: &Vec<Vec<char>>, k: usize, Ghost(path): Ghost<Seq<char>>) -> (r: usize)
    requires
        k < segs@.len(),
        crate::text::char_views(segs@) == split_seq(path, '/'),
        path.len() <= usize::MAX,
    ensures
        r == k + sum_lens(split_seq(path, '/').take(k as int)),
        r <= path.len(),
{
    let ghost ss = split_seq(path, '/');
    let mut off: usize = 0;
    let mut i: usize = 0;
    proof {
        lemma_split_len(path, '/', k as int);
        assert(ss.take(0) =~= Seq::<Seq<char>>::empty());
    }
    while i < k
        invariant
            i <= k < segs@.len(),
            ss == split_seq(path, '/'),
            crate::text::char_views(segs@) == ss,
            k + sum_lens(ss.take(k as int)) <= path.len(),
            path.len() <= usize::MAX,
            off == i + sum_lens(ss.take(i as int)),
        decreases k - i,
    {
        proof {
            lemma_sum_lens_take_succ(ss, i as int);
            lemma_sum_lens_take_le(ss.take(k as int), i + 1);
            assert(ss.take(k as int).take(i + 1) =~= ss.take(i + 1));
            assert(segs@[i as int]@ == ss[i as int]);
        }
        off = off + segs[i].len() + 1;
        i = i + 1;
    }
    off
}

/// Matches a pull API request to its route.
pub fn match_route(method: &Method, path: &str) -> (r: Option<ChatRoute>)
    ensures
        match r {
            Some(route) => chat_route(*method, path@) == Some(route@),
            None => chat_route(*method, path@) is None,
        },
{
    if !str_starts_with(path, "/v1/") {
        return None;
    }
    let pc = str_chars(path);
    let n_chars = pc.len();
    assert(path@.len() == n_chars);
    let segs = split_on_char(pc.as_slice(), '/');
    let ghost ss = split_seq(path@, '/');
    proof {
        assert forall|k: int| 0 <= k < segs@.len() implies #[trigger] segs@[k]@ == ss[k] by {
            assert(crate::text::char_views(segs@)[k] == segs@[k]@);
        }
    }
    let n = segs.len();
    match method {
        Method::Post => {
            if n > 3 && segs[3].len() > 0 {
                let off = tail_offset(&segs, 3, Ghost(path@));
                if chars_eq_str(segs[2].as_slice(), 0, segs[2].len(), "lattice") {
                    proof {
                        assert(segs@[2]@.subrange(0, segs@[2]@.len() as int) =~= segs@[2]@);
                    }
                    Some(ChatRoute::LatticeUpdate(tail_replacing(pc.as_slice(), off, '/', '.')))
                } else if chars_eq_str(segs[2].as_slice(), 0, segs[2].len(), "topic") {
                    proof {
                        assert(segs@[2]@.subrange(0, segs@[2]@.len() as int) =~= segs@[2]@);
                    }
                    Some(ChatRoute::TopicPublish(tail_replacing(pc.as_slice(), off, '/', '.')))
                } else {
                    proof {
                        assert(segs@[2]@.subrange(0, segs@[2]@.len() as int) =~= segs@[2]@);
                    }
                    None
                }
            } else {
                None
            }
        },
        Method::Put | Method::Delete => {
            if n > 5 && segs[3].len() > 0 && segs[5].len() > 0 && chars_eq_str(
                segs[2].as_slice(),
                0,
                segs[2].len(),
                "connection",
            ) {
                proof {
                    assert(segs@[2]@.subrange(0, segs@[2]@.len() as int) =~= segs@[2]@);
                    assert(segs@[4]@.subrange(0, segs@[4]@.len() as int) =~= segs@[4]@);
                }
                let off = tail_offset(&segs, 5, Ghost(path@));
                let put = match method {
                    Method::Put => true,
                    _ => false,
                };
                if chars_eq_str(segs[4].as_slice(), 0, segs[4].len(), "subscriptions") {
                    let id = chars_to_string(&segs[3]);
                    let topic = tail_replacing(pc.as_slice(), off, '/', '.');
                    if put {
                        Some(ChatRoute::TopicSubscribe(id, topic))
                    } else {
                        Some(ChatRoute::TopicUnsubscribe(id, topic))
                    }
                } else if chars_eq_str(segs[4].as_slice(), 0, segs[4].len(), "lattices") {
                    let id = chars_to_string(&segs[3]);
                    let ns = tail_replacing(pc.as_slice(), off, '/', '.');
                    if put {
                        Some(ChatRoute::LatticeSubscribe(id, ns))
                    } else {
                        Some(ChatRoute::LatticeUnsubscribe(id, ns))
                    }
                } else {
                    None
                }
            } else {
                proof {
                    if n > 5 {
                        assert(segs@[2]@.subrange(0, segs@[2]@.len() as int) =~= segs@[2]@);
                    }
                }
                None
            }
        },
        _ => None,
    }
}

} // verus!
