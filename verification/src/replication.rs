//! Replication of chat actions between the servers of a cluster.
use vstd::prelude::*;
use std::sync::Arc;
use crate::cid::Cid;
use crate::error::Status;
use crate::lattice::Delta;
use crate::map::{KeyMap, MapKey, StrMap, StrSet, Valid};
use crate::pool::{lemma_push_contains, lemma_take_next};
use crate::pools::texts;
use crate::processor::Action;
use crate::text::{str_eq, str_eq_ignore_ascii_case, utf8_decode, utf8_text, ascii_ci_eq};

verus! {

/// An action that another server of the cluster replicates to this one.
pub enum RemoteAction<P> {
    Subscribe { conn_id: Cid, server_id: String, topic: String },
    Unsubscribe { conn_id: Cid, server_id: String, topic: String },
    Publish { topic: String, data: Arc<P> },
    Attach { conn_id: Cid, server_id: String, namespace: String },
    Detach { conn_id: Cid, server_id: String, namespace: String },
    Lattice { namespace: String, delta: Delta },
    /// The duration as the client asked for it, not a deadline.
    UpdateActivity { session_id: String, duration: u64 },
}

/// The duration that an activity update carries (none for other actions).
pub open spec fn remote_duration<P>(a: RemoteAction<P>) -> u64 {
    match a {
        RemoteAction::UpdateActivity { duration, .. } => duration,
        _ => 0,
    }
}

impl<P> RemoteAction<P> {
    /// The local action for a replicated one received at `now`: activity
    /// lasts its duration from `now`; the server ids are dropped.
    pub fn into_action(self, now: u64) -> (r: Action<P>)
        requires
            now + remote_duration(self) <= u64::MAX,
        ensures
            match self {
                RemoteAction::Subscribe { conn_id, topic, .. } => r matches Action::Subscribe {
                    conn_id: c,
                    topic: t,
                } && c == conn_id && t@ == topic@,
                RemoteAction::Unsubscribe { conn_id, topic, .. } => r matches Action::Unsubscribe {
                    conn_id: c,
                    topic: t,
                } && c == conn_id && t@ == topic@,
                RemoteAction::Publish { topic, data } => r matches Action::Publish { topic: t, data: d }
                    && t@ == topic@ && d == data,
                RemoteAction::Attach { conn_id, namespace, .. } => r matches Action::Attach {
                    namespace: n,
                    conn_id: c,
                } && c == conn_id && n@ == namespace@,
                RemoteAction::Detach { conn_id, namespace, .. } => r matches Action::Detach {
                    namespace: n,
                    conn_id: c,
                } && c == conn_id && n@ == namespace@,
                RemoteAction::Lattice { namespace, delta } => r matches Action::Lattice {
                    namespace: n,
                    delta: d,
                } && n@ == namespace@ && d == delta,
                RemoteAction::UpdateActivity { session_id, duration } => r matches Action::UpdateActivity {
                    session_id: s,
                    timestamp,
                } && s@ == session_id@ && timestamp == now + duration,
            },
    {
        match self {
            RemoteAction::Subscribe { conn_id, topic, .. } => Action::Subscribe { conn_id, topic },
            RemoteAction::Unsubscribe { conn_id, topic, .. } => Action::Unsubscribe { conn_id, topic },
            RemoteAction::Publish { topic, data } => Action::Publish { topic, data },
            RemoteAction::Attach { conn_id, namespace, .. } => Action::Attach { conn_id, namespace },
            RemoteAction::Detach { conn_id, namespace, .. } => Action::Detach { conn_id, namespace },
            RemoteAction::Lattice { namespace, delta } => Action::Lattice { namespace, delta },
            RemoteAction::UpdateActivity { session_id, duration } => Action::UpdateActivity {
                session_id,
                timestamp: now + duration,
            },
        }
    }
}

/// How a peer server is reached.
#[derive(Debug)]
pub enum State {
    /// Connect started for outbound connection, until the given time;
    /// its node id is still unknown.
    Connecting(u64),
    /// A live connection, outbound or inbound, to the node of this id.
    Connected(String),
}

/// A peer state by the text of its parts.
pub enum StateView {
    Connecting(u64),
    Connected(Seq<char>),
}

impl View for State {
    type V = StateView;

    open spec fn view(&self) -> StateView {
        match self {
            State::Connecting(t) => StateView::Connecting(*t),
            State::Connected(id) => StateView::Connected(id@),
        }
    }
}

impl Valid for State {
    open spec fn valid(&self) -> bool {
        true
    }
}

/// The peers of a server, by name, and the nodes it has links to.
pub struct Watcher {
    peers: StrMap<State>,
    links: StrSet,
}

/// The peers that stay after the configuration names `wanted`.
pub open spec fn kept_peers(peers: Map<Seq<char>, StateView>, wanted: Set<Seq<char>>) -> Map<
    Seq<char>,
    StateView,
> {
    peers.restrict(wanted)
}

/// The links that stay after the peers not in `wanted` are forgotten: a
/// forgotten peer's live connection goes.
pub open spec fn kept_links(
    peers: Map<Seq<char>, StateView>,
    links: Set<Seq<char>>,
    wanted: Set<Seq<char>>,
) -> Set<Seq<char>> {
    links.filter(
        |id: Seq<char>|
            !(exists|p: Seq<char>| #[trigger] peers.contains_key(p) && !wanted.contains(p) && peers[p] == StateView::Connected(id)),
    )
}

/// The peer needs no new connection at `now`: it is connected over a live
/// link, or a connection to it is still being made.
pub open spec fn peer_ok(state: Option<StateView>, links: Set<Seq<char>>, now: u64) -> bool {
    match state {
        Some(StateView::Connected(id)) => links.contains(id),
        Some(StateView::Connecting(t)) => t >= now,
        None => false,
    }
}

impl Watcher {
    /// The peers by name.
    pub closed spec fn peers_view(&self) -> Map<Seq<char>, StateView> {
        self.peers@
    }

    /// The nodes with a live link.
    pub closed spec fn links_view(&self) -> Set<Seq<char>> {
        self.links@
    }

    /// The parts are well formed.
    pub closed spec fn wf(&self) -> bool {
        self.peers.wf() && self.links.wf()
    }

    /// A watcher without peers or links.
    pub fn new() -> (r: Watcher)
        ensures
            r.wf(),
            r.peers_view() == Map::<Seq<char>, StateView>::empty(),
            r.links_view() == Set::<Seq<char>>::empty(),
    {
        Watcher { peers: StrMap::new(), links: StrSet::new() }
    }

    /// A connection to node `runtime_id` is up; where it is the peer `peer`,
    /// that peer is connected.
    pub fn attach(&mut self, runtime_id: String, peer: Option<String>)
        requires
            old(self).wf(),
        ensures
            final(self).wf(),
            final(self).links_view() == old(self).links_view().insert(runtime_id@),
            final(self).peers_view() == match peer {
                Some(p) => old(self).peers_view().insert(p@, StateView::Connected(runtime_id@)),
                None => old(self).peers_view(),
            },
    {
        match peer {
            Some(p) => self.peers.insert(p, State::Connected(runtime_id.clone())),
            None => {},
        }
        self.links.insert(runtime_id);
    }

    /// The link to node `runtime_id` is gone.
    pub fn drop_link(&mut self, runtime_id: &String)
        requires
            old(self).wf(),
        ensures
            final(self).wf(),
            final(self).links_view() == old(self).links_view().remove(runtime_id@),
            final(self).peers_view() == old(self).peers_view(),
    {
        self.links.remove(runtime_id);
    }

    /// Brings the peers in line with the configured peers `wanted` at
    /// `now`: peers no longer configured are forgotten (with their links);
    /// each configured peer that is neither connected over a live link nor
    /// being connected to is connected to, until `now + reconnect_timeout`.
    /// Gives back the peers to connect to, each once, in configuration
    /// order.
    pub fn reconnect(&mut self, wanted: &Vec<String>, now: u64, reconnect_timeout: u64) -> (r: Vec<String>)
        requires
            old(self).wf(),
            now + reconnect_timeout <= u64::MAX,
        ensures
            final(self).wf(),
            ({
                let w = texts(wanted@);
                let peers1 = kept_peers(old(self).peers_view(), w.to_set());
                let links1 = kept_links(old(self).peers_view(), old(self).links_view(), w.to_set());
                &&& final(self).links_view() == links1
                &&& final(self).peers_view() == Map::new(
                    |p: Seq<char>| peers1.contains_key(p) || w.contains(p),
                    |p: Seq<char>|
                        if w.contains(p) && !peer_ok(
                            if peers1.contains_key(p) {
                                Some(peers1[p])
                            } else {
                                None
                            },
                            links1,
                            now,
                        ) {
                            StateView::Connecting((now + reconnect_timeout) as u64)
                        } else {
                            peers1[p]
                        },
                )
                &&& texts(r@).no_duplicates()
                &&& forall|p: Seq<char>| #[trigger] texts(r@).contains(p) <==> (w.contains(p)
                    && !peer_ok(
                    if peers1.contains_key(p) {
                        Some(peers1[p])
                    } else {
                        None
                    },
                    links1,
                    now,
                ))
            }),
    {
        let ghost w = texts(wanted@);
        let ghost p0 = self.peers@;
        let ghost l0 = self.links@;
        let ghost peers1 = kept_peers(p0, w.to_set());
        let ghost links1 = kept_links(p0, l0, w.to_set());
        // forget the peers that are no longer configured
        let mut old_peers = StrMap::new();
        std::mem::swap(&mut old_peers, &mut self.peers);
        let ghost keys = old_peers.keys();
        proof {
            old_peers.lemma_wf();
        }
        let mut i: usize = 0;
        while i < old_peers.len()
            invariant
                old_peers.wf(),
                self.peers.wf(),
                self.links.wf(),
                old_peers@ == p0,
                keys == old_peers.keys(),
                keys.no_duplicates(),
                p0.dom() == keys.to_set(),
                w == texts(wanted@),
                i <= keys.len(),
                self.peers@ == p0.restrict(w.to_set().intersect(keys.take(i as int).to_set())),
                self.links@ == l0.filter(
                    |id: Seq<char>|
                        !(exists|p: Seq<char>| #[trigger] p0.contains_key(p) && keys.take(i as int).contains(p) && !w.to_set().contains(p)
                            && p0[p] == StateView::Connected(id)),
                ),
            decreases keys.len() - i,
        {
            let name = old_peers.key_at(i);
            let state = old_peers.value_at(i);
            proof {
                lemma_take_next(keys, i as int);
            }
            let mut found = false;
            let mut j: usize = 0;
            while j < wanted.len()
                invariant
                    j <= wanted@.len(),
                    w == texts(wanted@),
                    found == w.take(j as int).contains(name@),
                decreases wanted@.len() - j,
            {
                proof {
                    lemma_take_next(w, j as int);
                }
                if str_eq(wanted[j].as_str(), name.as_str()) {
                    found = true;
                }
                j = j + 1;
            }
            proof {
                assert(w.take(w.len() as int) =~= w);
                assert(found == w.to_set().contains(name@));
            }
            let ghost before_links = self.links@;
            if found {
                let copy = match state {
                    State::Connecting(t) => State::Connecting(*t),
                    State::Connected(id) => State::Connected(id.clone()),
                };
                self.peers.insert(name.clone(), copy);
            } else {
                match state {
                    State::Connected(id) => {
                        self.links.remove(id);
                    },
                    State::Connecting(_) => {},
                }
            }
            proof {
                assert(self.peers@ =~= p0.restrict(w.to_set().intersect(keys.take(i + 1).to_set())));
                assert(self.links@ =~= l0.filter(
                    |id: Seq<char>|
                        !(exists|p: Seq<char>| #[trigger] p0.contains_key(p) && keys.take(i + 1).contains(p) && !w.to_set().contains(p)
                            && p0[p] == StateView::Connected(id)),
                )) by {
                    assert forall|id: Seq<char>| self.links@.contains(id) <==> (l0.contains(id) && !(exists|p: Seq<char>|
                        #[trigger] p0.contains_key(p) && keys.take(i + 1).contains(p) && !w.to_set().contains(p)
                            && p0[p] == StateView::Connected(id))) by {
                        if exists|p: Seq<char>| #[trigger] p0.contains_key(p) && keys.take(i + 1).contains(p) && !w.to_set().contains(p)
                            && p0[p] == StateView::Connected(id) {
                            let p = choose|p: Seq<char>| #[trigger] p0.contains_key(p) && keys.take(i + 1).contains(p) && !w.to_set().contains(p)
                                && p0[p] == StateView::Connected(id);
                            if p != name@ {
                                assert(keys.take(i as int).contains(p));
                            }
                        }
                    }
                }
            }
            i = i + 1;
        }
        proof {
            assert(keys.take(keys.len() as int) =~= keys);
            assert(self.peers@ =~= peers1);
            assert(self.links@ =~= links1) by {
                assert forall|id: Seq<char>| self.links@.contains(id) <==> links1.contains(id) by {
                    if exists|p: Seq<char>| #[trigger] p0.contains_key(p) && !w.to_set().contains(p) && p0[p] == StateView::Connected(id) {
                        let p = choose|p: Seq<char>| #[trigger] p0.contains_key(p) && !w.to_set().contains(p) && p0[p] == StateView::Connected(id);
                        assert(keys.to_set().contains(p));
                    }
                }
            }
        }
        // connect to the configured peers that need it
        let timeout = now + reconnect_timeout;
        let mut out: Vec<String> = Vec::new();
        let mut k: usize = 0;
        while k < wanted.len()
            invariant
                self.peers.wf(),
                self.links.wf(),
                w == texts(wanted@),
                k <= w.len(),
                timeout == now + reconnect_timeout,
                self.links@ == links1,
                self.peers@ == Map::new(
                    |p: Seq<char>| peers1.contains_key(p) || w.take(k as int).contains(p),
                    |p: Seq<char>|
                        if w.take(k as int).contains(p) && !peer_ok(
                            if peers1.contains_key(p) {
                                Some(peers1[p])
                            } else {
                                None
                            },
                            links1,
                            now,
                        ) {
                            StateView::Connecting(timeout)
                        } else {
                            peers1[p]
                        },
                ),
                texts(out@).no_duplicates(),
                forall|p: Seq<char>| #[trigger] texts(out@).contains(p) <==> (w.take(k as int).contains(p)
                    && !peer_ok(
                    if peers1.contains_key(p) {
                        Some(peers1[p])
                    } else {
                        None
                    },
                    links1,
                    now,
                )),
            decreases w.len() - k,
        {
            let peer = &wanted[k];
            let ghost pv = peer@;
            let ghost o0 = texts(out@);
            proof {
                lemma_take_next(w, k as int);
                assert(w[k as int] == pv);
            }
            let ok = match self.peers.get(peer) {
                Some(State::Connected(id)) => self.links.contains(id),
                Some(State::Connecting(t)) => *t >= now,
                None => false,
            };
            proof {
                let orig = if peers1.contains_key(pv) {
                    Some(peers1[pv])
                } else {
                    None
                };
                if w.take(k as int).contains(pv) {
                    if !peer_ok(orig, links1, now) {
                        assert(self.peers@[pv] == StateView::Connecting(timeout));
                        assert(ok);
                    } else {
                        assert(self.peers@[pv] == peers1[pv]);
                    }
                } else {
                    assert(ok == peer_ok(orig, links1, now));
                }
            }
            if !ok {
                self.peers.insert(peer.clone(), State::Connecting(timeout));
                out.push(peer.clone());
                proof {
                    assert(texts(out@) =~= o0.push(pv));
                    lemma_push_contains(o0, pv);
                    assert(!o0.contains(pv));
                    assert forall|a: int, b: int| 0 <= a < b < o0.push(pv).len() implies o0.push(pv)[a] != o0.push(pv)[b] by {
                        if b == o0.len() {
                            assert(o0.contains(o0[a]));
                        }
                    }
                }
            }
            proof {
                assert(self.peers@ =~= Map::new(
                    |p: Seq<char>| peers1.contains_key(p) || w.take(k + 1).contains(p),
                    |p: Seq<char>|
                        if w.take(k + 1).contains(p) && !peer_ok(
                            if peers1.contains_key(p) {
                                Some(peers1[p])
                            } else {
                                None
                            },
                            links1,
                            now,
                        ) {
                            StateView::Connecting(timeout)
                        } else {
                            peers1[p]
                        },
                ));
            }
            k = k + 1;
        }
        proof {
            assert(w.take(w.len() as int) =~= w);
        }
        out
    }
}

/// The listening addresses to stop when the configuration asks to listen
/// on `wanted`: those of `current` that it no longer names.
pub fn listen_plan(current: &StrSet, wanted: &Vec<String>) -> (r: Vec<String>)
    requires
        current.wf(),
    ensures
        texts(r@).no_duplicates(),
        texts(r@).to_set() == current@.difference(
            texts(wanted@).to_set(),
        ),
{
    let ghost w = texts(wanted@);
    let ghost ce = current.elems();
    proof {
        current.lemma_unique();
    }
    let mut out: Vec<String> = Vec::new();
    let mut i: usize = 0;
    while i < current.len()
        invariant
            current.wf(),
            ce == current.elems(),
            ce.no_duplicates(),
            w == texts(wanted@),
            i <= ce.len(),
            texts(out@).no_duplicates(),
            forall|x: Seq<char>| #[trigger] texts(out@).contains(x) <==> (ce.take(i as int).contains(x)
                && !w.contains(x)),
        decreases ce.len() - i,
    {
        let addr = current.item_at(i);
        let ghost o0 = texts(out@);
        proof {
            lemma_take_next(ce, i as int);
            assert(!ce.take(i as int).contains(addr@)) by {
                if ce.take(i as int).contains(addr@) {
                    let j = ce.take(i as int).index_of(addr@);
                    assert(ce[j] == ce[i as int]);
                }
            }
        }
        let mut found = false;
        let mut j: usize = 0;
        while j < wanted.len()
            invariant
                j <= wanted@.len(),
                w == texts(wanted@),
                found == w.take(j as int).contains(addr@),
            decreases wanted@.len() - j,
        {
            proof {
                lemma_take_next(w, j as int);
            }
            if str_eq(wanted[j].as_str(), addr.as_str()) {
                found = true;
            }
            j = j + 1;
        }
        proof {
            assert(w.take(w.len() as int) =~= w);
        }
        if !found {
            out.push(addr.clone());
            proof {
                assert(texts(out@) =~= o0.push(addr@));
                lemma_push_contains(o0, addr@);
                assert(!o0.contains(addr@));
                assert forall|a: int, b: int| 0 <= a < b < o0.push(addr@).len() implies o0.push(addr@)[a] != o0.push(
                    addr@,
                )[b] by {
                    if b == o0.len() {
                        assert(o0.contains(o0[a]));
                    }
                }
            }
        }
        i = i + 1;
    }
    proof {
        assert(ce.take(ce.len() as int) =~= ce);
        assert(texts(out@).to_set() =~= current@.difference(w.to_set()));
    }
    out
}

/// The node id that the `X-Swindon-Node-Id` header (name in any ASCII
/// case) of a replication handshake gives: the first such header, as
/// UTF-8.
pub open spec fn node_id_of(headers: Seq<(Seq<char>, Seq<u8>)>) -> Option<Seq<char>>
    decreases headers.len(),
{
    if headers.len() == 0 {
        None
    } else if ascii_ci_eq(headers[0].0, "X-Swindon-Node-Id"@) {
        utf8_text(headers[0].1)
    } else {
        node_id_of(headers.drop_first())
    }
}

/// Law: the node id of a handshake is the UTF-8 text of its first
/// `X-Swindon-Node-Id` header; there is none without such a header.
pub proof fn law_node_id_of(headers: Seq<(Seq<char>, Seq<u8>)>)
    ensures
        forall|i: int|
            0 <= i < headers.len() && ascii_ci_eq(#[trigger] headers[i].0, "X-Swindon-Node-Id"@)
                && (forall|j: int| 0 <= j < i ==> !ascii_ci_eq(headers[j].0, "X-Swindon-Node-Id"@))
                ==> node_id_of(headers) == utf8_text(headers[i].1),
        !has_node_header(headers) ==> node_id_of(headers) is None,
    decreases headers.len(),
{
    if headers.len() > 0 {
        let rest = headers.drop_first();
        law_node_id_of(rest);
        assert forall|i: int| 0 <= i < rest.len() implies #[trigger] rest[i] == headers[i + 1] by {}
        assert forall|i: int|
            0 <= i < headers.len() && ascii_ci_eq(#[trigger] headers[i].0, "X-Swindon-Node-Id"@)
                && (forall|j: int| 0 <= j < i ==> !ascii_ci_eq(headers[j].0, "X-Swindon-Node-Id"@))
                implies node_id_of(headers) == utf8_text(headers[i].1) by {
            if i > 0 {
                assert(!ascii_ci_eq(headers[0].0, "X-Swindon-Node-Id"@));
                assert(rest[i - 1] == headers[i]);
                assert(ascii_ci_eq(rest[i - 1].0, "X-Swindon-Node-Id"@));
                assert forall|j: int| 0 <= j < i - 1 implies !ascii_ci_eq(
                    rest[j].0,
                    "X-Swindon-Node-Id"@,
                ) by {
                    assert(rest[j] == headers[j + 1]);
                }
            }
        }
        if !has_node_header(headers) {
            assert(!ascii_ci_eq(headers[0].0, "X-Swindon-Node-Id"@));
            if has_node_header(rest) {
                let i = choose|i: int|
                    0 <= i < rest.len() && ascii_ci_eq(#[trigger] rest[i].0, "X-Swindon-Node-Id"@);
                assert(ascii_ci_eq(headers[i + 1].0, "X-Swindon-Node-Id"@));
            }
        }
    }
}

/// The node id of the peer in a replication handshake.
pub fn parse_remote_id(headers: &[(String, Vec<u8>)]) -> (r: Option<String>)
    ensures
        opt_string(r) == node_id_of(headers@.map_values(|h: (String, Vec<u8>)| (h.0@, h.1@))),
{
    let ghost hv = headers@.map_values(|h: (String, Vec<u8>)| (h.0@, h.1@));
    let mut i: usize = 0;
    proof {
        assert(hv.skip(0) =~= hv);
    }
    while i < headers.len()
        invariant
            i <= headers@.len(),
            hv == headers@.map_values(|h: (String, Vec<u8>)| (h.0@, h.1@)),
            node_id_of(hv.skip(i as int)) == node_id_of(hv),
        decreases headers@.len() - i,
    {
        let (name, value) = &headers[i];
        proof {
            reveal_strlit("X-Swindon-Node-Id");
            assert(hv.skip(i as int)[0] == (name@, value@));
            assert(hv.skip(i as int).drop_first() =~= hv.skip(i + 1));
        }
        if str_eq_ignore_ascii_case(name.as_str(), "X-Swindon-Node-Id") {
            return match utf8_decode(value.as_slice()) {
                Some(s) => Some(s.to_string()),
                None => None,
            };
        }
        i = i + 1;
    }
    proof {
        assert(hv.skip(i as int) =~= Seq::<(Seq<char>, Seq<u8>)>::empty());
    }
    None
}

/// The text of an optional string.
pub open spec fn opt_string(s: Option<String>) -> Option<Seq<char>> {
    match s {
        Some(t) => Some(t@),
        None => None,
    }
}

/// Answers the head of a replication request: a websocket upgrade on
/// `/v1/swindon-chat` with the peer's node id is accepted (giving the id);
/// another request on that path is a bad request, any other path is not
/// found.
pub fn incoming_route(path: Option<&str>, websocket: bool, remote_id: Option<String>) -> (r: Result<String, Status>)
    ensures
        (path matches Some(p) && p@ == "/v1/swindon-chat"@) ==> (if websocket && remote_id is Some {
            r matches Ok(id) && Some(id@) == opt_string(remote_id)
        } else {
            r == Err::<String, Status>(Status { code: 400 })
        }),
        !(path matches Some(p) && p@ == "/v1/swindon-chat"@) ==> r == Err::<String, Status>(Status { code: 404 }),
{
    let on_path = match path {
        Some(p) => str_eq(p, "/v1/swindon-chat"),
        None => false,
    };
    if !on_path {
        return Err(Status { code: 404 });
    }
    if !websocket {
        return Err(Status { code: 400 });
    }
    match remote_id {
        Some(id) => Ok(id),
        None => Err(Status { code: 400 }),
    }
}

/// Whether some header of `headers` is `X-Swindon-Node-Id` (in any ASCII
/// case).
pub open spec fn has_node_header(headers: Seq<(Seq<char>, Seq<u8>)>) -> bool {
    exists|i: int| 0 <= i < headers.len() && ascii_ci_eq(#[trigger] headers[i].0, "X-Swindon-Node-Id"@)
}

/// Why the answer to a replication handshake that this server opened is
/// refused.
#[derive(Debug, Clone, Copy, PartialEq, Eq, Structural)]
pub enum HandshakeError {
    /// It has no `X-Swindon-Node-Id` header.
    MissingNodeId,
    /// Its node id is not UTF-8.
    InvalidNodeId,
}

/// The opening of a replication connection to a peer server.
pub struct Authorizer {
    pub server_id: String,
    pub peername: String,
}

impl Authorizer {
    /// The opening of a connection to `peer` by server `server_id`.
    pub fn new(peer: String, server_id: String) -> (r: Authorizer)
        ensures
            r.peername@ == peer@,
            r.server_id@ == server_id@,
    {
        Authorizer { server_id, peername: peer }
    }

    /// The path and the headers of the handshake request: the peer as
    /// host and origin, and this server's node id.
    pub fn write_headers(&self) -> (r: (&'static str, Vec<(&'static str, String)>))
        ensures
            r.0@ == "/v1/swindon-chat"@,
            r.1@.len() == 3,
            r.1@[0].0@ == "Host"@ && r.1@[0].1@ == self.peername@,
            r.1@[1].0@ == "Origin"@ && r.1@[1].1@ == "http://"@ + self.peername@
                + "/v1/swindon-chat"@,
            r.1@[2].0@ == "X-Swindon-Node-Id"@ && r.1@[2].1@ == self.server_id@,
    {
        let a = crate::dispatcher::concat("http://", self.peername.as_str());
        let origin = crate::dispatcher::concat(a.as_str(), "/v1/swindon-chat");
        let mut h: Vec<(&'static str, String)> = Vec::new();
        h.push(("Host", self.peername.clone()));
        h.push(("Origin", origin));
        h.push(("X-Swindon-Node-Id", self.server_id.clone()));
        ("/v1/swindon-chat", h)
    }

    /// The peer's node id, from the headers of the handshake's answer: the
    /// first `X-Swindon-Node-Id` header, which must be UTF-8.
    pub fn headers_received(&self, headers: &[(String, Vec<u8>)]) -> (r: Result<String, HandshakeError>)
        ensures
            ({
                let hv = headers@.map_values(|h: (String, Vec<u8>)| (h.0@, h.1@));
                &&& !has_node_header(hv) ==> r == Err::<String, HandshakeError>(
                    HandshakeError::MissingNodeId,
                )
                &&& has_node_header(hv) && node_id_of(hv) is None ==> r == Err::<String, HandshakeError>(
                    HandshakeError::InvalidNodeId,
                )
                &&& node_id_of(hv) matches Some(t) ==> r matches Ok(s) && s@ == t
            }),
    {
        let ghost hv = headers@.map_values(|h: (String, Vec<u8>)| (h.0@, h.1@));
        let mut i: usize = 0;
        proof {
            assert(hv.skip(0) =~= hv);
        }
        while i < headers.len()
            invariant
                i <= headers@.len(),
                hv == headers@.map_values(|h: (String, Vec<u8>)| (h.0@, h.1@)),
                node_id_of(hv.skip(i as int)) == node_id_of(hv),
                forall|j: int| 0 <= j < i ==> !ascii_ci_eq(#[trigger] hv[j].0, "X-Swindon-Node-Id"@),
            decreases headers@.len() - i,
        {
            let (name, value) = &headers[i];
            proof {
                reveal_strlit("X-Swindon-Node-Id");
                assert(hv.skip(i as int)[0] == (name@, value@));
                assert(hv.skip(i as int).drop_first() =~= hv.skip(i + 1));
                assert(hv[i as int] == (name@, value@));
            }
            if str_eq_ignore_ascii_case(name.as_str(), "X-Swindon-Node-Id") {
                return match utf8_decode(value.as_slice()) {
                    Some(s) => Ok(s.to_string()),
                    None => Err(HandshakeError::InvalidNodeId),
                };
            }
            i = i + 1;
        }
        proof {
            assert(hv.skip(i as int) =~= Seq::<(Seq<char>, Seq<u8>)>::empty());
        }
        Err(HandshakeError::MissingNodeId)
    }
}

} // verus!
