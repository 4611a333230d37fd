//! A session pool: the connections, sessions, topic subscriptions and
//! lattices of one chat pool.
//!
//! The pool is driven by actions only: it keeps no clock, and every time
//! it needs comes with the action, as milliseconds. What the pool has to
//! tell connections and its owner comes back from each action as a list of
//! `Outgoing` messages.
use vstd::prelude::*;
use std::sync::Arc;
use crate::arc::share;
use crate::cid::Cid;
use crate::error::CloseReason;
use crate::lattice::{Delta, DeltaView, Lattice, LatticeView, Values, ValuesView, delta_fresh, private_merge, room_or_empty, rooms_merge, session_or_empty, values_overlay};
use crate::map::{StrMap, StrSet};
use crate::map::{KeyMap, KeySet, MapKey, Valid};
use crate::processor::{Action, ConnectionMessage, Outgoing, PoolMessage, Note, notes, opt_deref, step_allowed};

verus! {

/// How a connection is subscribed to a topic.
#[derive(Debug, Clone, Copy, PartialEq, Eq, Structural)]
pub enum Subscription {
    /// The connection has not been associated with a session yet.
    Pending,
    /// The connection belongs to a session.
    Session,
}

impl View for Subscription {
    type V = Subscription;

    open spec fn view(&self) -> Subscription {
        *self
    }
}

impl Valid for Subscription {
    open spec fn valid(&self) -> bool {
        true
    }
}

/// A connection that has not been associated with a session yet.
pub struct NewConnection<P> {
    pub cid: Cid,
    pub topics: KeySet<String>,
    pub lattices: KeySet<String>,
    /// Messages published to its topics before the association.
    pub message_buffer: Vec<(String, Arc<P>)>,
}

/// A connection of a session.
pub struct Connection {
    pub cid: Cid,
    pub session_id: String,
    pub topics: KeySet<String>,
    pub lattices: KeySet<String>,
}

/// A user session: its connections, which of them are attached to which
/// lattice namespace, and its metadata. An active session has the time
/// until which it stays active; an inactive one has none.
pub struct Session<P> {
    pub active_until: Option<u64>,
    pub connections: KeySet<Cid>,
    pub lattices: KeyMap<String, KeySet<Cid>>,
    pub metadata: Option<Arc<P>>,
}

/// A pending connection by its parts.
pub struct PendingView<P> {
    pub cid: u64,
    pub topics: Set<Seq<char>>,
    pub lattices: Set<Seq<char>>,
    pub buffer: Seq<(Seq<char>, P)>,
}

/// A connection by its parts.
pub struct ConnView {
    pub cid: u64,
    pub session_id: Seq<char>,
    pub topics: Set<Seq<char>>,
    pub lattices: Set<Seq<char>>,
}

/// A session by its parts.
pub struct SessionView<P> {
    pub active_until: Option<u64>,
    pub connections: Set<u64>,
    pub lattices: Map<Seq<char>, Set<u64>>,
    pub metadata: Option<P>,
}

/// The buffered messages by topic name and data.
pub open spec fn buffer_view<P>(b: Seq<(String, Arc<P>)>) -> Seq<(Seq<char>, P)> {
    b.map_values(|m: (String, Arc<P>)| (m.0@, *m.1))
}

impl<P> View for NewConnection<P> {
    type V = PendingView<P>;

    open spec fn view(&self) -> PendingView<P> {
        PendingView {
            cid: self.cid.0,
            topics: self.topics@,
            lattices: self.lattices@,
            buffer: buffer_view(self.message_buffer@),
        }
    }
}

impl<P> Valid for NewConnection<P> {
    open spec fn valid(&self) -> bool {
        self.topics.wf() && self.lattices.wf()
    }
}

impl View for Connection {
    type V = ConnView;

    open spec fn view(&self) -> ConnView {
        ConnView {
            cid: self.cid.0,
            session_id: self.session_id@,
            topics: self.topics@,
            lattices: self.lattices@,
        }
    }
}

impl Valid for Connection {
    open spec fn valid(&self) -> bool {
        self.topics.wf() && self.lattices.wf()
    }
}

impl<P> View for Session<P> {
    type V = SessionView<P>;

    open spec fn view(&self) -> SessionView<P> {
        SessionView {
            active_until: self.active_until,
            connections: self.connections@,
            lattices: self.lattices@,
            metadata: opt_deref(self.metadata),
        }
    }
}

impl<P> Valid for Session<P> {
    open spec fn valid(&self) -> bool {
        self.connections.wf() && self.lattices.wf()
    }
}

impl<P> Session<P> {
    /// A session without connections, attachments or metadata, not active.
    pub fn new() -> (r: Session<P>)
        ensures
            r.valid(),
            r@ == (SessionView::<P> {
                active_until: None,
                connections: Set::empty(),
                lattices: Map::empty(),
                metadata: None,
            }),
    {
        Session {
            active_until: None,
            connections: KeySet::new(),
            lattices: KeyMap::new(),
            metadata: None,
        }
    }
}

/// The subscriptions of topic `t`, or none.
pub open spec fn subs_of(topics: Map<Seq<char>, Map<u64, Subscription>>, t: Seq<char>) -> Map<
    u64,
    Subscription,
> {
    if topics.contains_key(t) {
        topics[t]
    } else {
        Map::empty()
    }
}

/// The topics after subscribing `c` to `t` with kind `s`.
pub open spec fn add_sub(
    topics: Map<Seq<char>, Map<u64, Subscription>>,
    t: Seq<char>,
    c: u64,
    s: Subscription,
) -> Map<Seq<char>, Map<u64, Subscription>> {
    topics.insert(t, subs_of(topics, t).insert(c, s))
}

/// The topics after dropping the subscription of `c` to `t`; a topic left
/// without subscribers goes away.
pub open spec fn drop_sub(topics: Map<Seq<char>, Map<u64, Subscription>>, t: Seq<char>, c: u64) -> Map<
    Seq<char>,
    Map<u64, Subscription>,
> {
    if !topics.contains_key(t) {
        topics
    } else if topics[t].remove(c).dom().is_empty() {
        topics.remove(t)
    } else {
        topics.insert(t, topics[t].remove(c))
    }
}

/// The topics after dropping the subscriptions of `c` to each of `ts`.
pub open spec fn drop_subs(
    topics: Map<Seq<char>, Map<u64, Subscription>>,
    ts: Set<Seq<char>>,
    c: u64,
) -> Map<Seq<char>, Map<u64, Subscription>> {
    Map::new(
        |t: Seq<char>| topics.contains_key(t) && !(ts.contains(t) && topics[t].remove(c).dom().is_empty()),
        |t: Seq<char>| if ts.contains(t) { topics[t].remove(c) } else { topics[t] },
    )
}

/// Every subscription names a connection of its kind that lists the topic.
pub open spec fn subscriptions_known<P>(
    topics: Map<Seq<char>, Map<u64, Subscription>>,
    pending: Map<u64, PendingView<P>>,
    conns: Map<u64, ConnView>,
) -> bool {
    forall|t: Seq<char>, c: u64|
        #![trigger topics[t][c]]
        topics.contains_key(t) && topics[t].contains_key(c) ==> {
            &&& topics[t][c] == Subscription::Pending ==> pending.contains_key(c)
                && pending[c].topics.contains(t)
            &&& topics[t][c] == Subscription::Session ==> conns.contains_key(c)
                && conns[c].topics.contains(t)
        }
}

/// Every topic that a connection lists has its subscription.
pub open spec fn topics_subscribed<P>(
    topics: Map<Seq<char>, Map<u64, Subscription>>,
    pending: Map<u64, PendingView<P>>,
    conns: Map<u64, ConnView>,
) -> bool {
    &&& forall|c: u64, t: Seq<char>|
        #![trigger pending[c].topics.contains(t)]
        pending.contains_key(c) && pending[c].topics.contains(t) ==> topics.contains_key(t)
            && topics[t].contains_key(c) && topics[t][c] == Subscription::Pending
    &&& forall|c: u64, t: Seq<char>|
        #![trigger conns[c].topics.contains(t)]
        conns.contains_key(c) && conns[c].topics.contains(t) ==> topics.contains_key(t)
            && topics[t].contains_key(c) && topics[t][c] == Subscription::Session
}

/// Connections and sessions agree: each connection belongs to a session
/// that lists it, and each session lists only its own connections.
pub open spec fn sessions_agree<P>(
    sessions: Map<Seq<char>, SessionView<P>>,
    conns: Map<u64, ConnView>,
) -> bool {
    &&& forall|c: u64|
        #[trigger] conns.contains_key(c) ==> sessions.contains_key(conns[c].session_id)
            && sessions[conns[c].session_id].connections.contains(c)
    &&& forall|s: Seq<char>, c: u64|
        #[trigger] sessions[s].connections.contains(c) && sessions.contains_key(s)
            ==> conns.contains_key(c) && conns[c].session_id == s
}

/// The lattice attachments of the sessions name no pending connection, and
/// a live connection only in its own session (attachments of connections
/// that are gone may stay).
pub open spec fn attachments_owned<P>(
    sessions: Map<Seq<char>, SessionView<P>>,
    pending: Map<u64, PendingView<P>>,
    conns: Map<u64, ConnView>,
) -> bool {
    forall|s: Seq<char>, ns: Seq<char>, c: u64|
        #![trigger sessions[s].lattices[ns].contains(c)]
        sessions.contains_key(s) && sessions[s].lattices.contains_key(ns)
            && sessions[s].lattices[ns].contains(c) ==> !pending.contains_key(c) && (
        conns.contains_key(c) ==> conns[c].session_id == s)
}

/// No session lists connection `c` among its lattice attachments.
pub open spec fn unattached<P>(sessions: Map<Seq<char>, SessionView<P>>, c: u64) -> bool {
    forall|s: Seq<char>, ns: Seq<char>|
        #![trigger sessions[s].lattices[ns].contains(c)]
        sessions.contains_key(s) && sessions[s].lattices.contains_key(ns)
            ==> !sessions[s].lattices[ns].contains(c)
}

/// Connection `c` with topics `t`.
pub open spec fn conn_topics(c: ConnView, t: Set<Seq<char>>) -> ConnView {
    ConnView { cid: c.cid, session_id: c.session_id, topics: t, lattices: c.lattices }
}

/// Connection `c` with lattice namespaces `l`.
pub open spec fn conn_lattices(c: ConnView, l: Set<Seq<char>>) -> ConnView {
    ConnView { cid: c.cid, session_id: c.session_id, topics: c.topics, lattices: l }
}

/// Pending connection `c` with topics `t`.
pub open spec fn pending_topics<P>(c: PendingView<P>, t: Set<Seq<char>>) -> PendingView<P> {
    PendingView { cid: c.cid, topics: t, lattices: c.lattices, buffer: c.buffer }
}

/// Pending connection `c` with lattice namespaces `l`.
pub open spec fn pending_lattices<P>(c: PendingView<P>, l: Set<Seq<char>>) -> PendingView<P> {
    PendingView { cid: c.cid, topics: c.topics, lattices: l, buffer: c.buffer }
}

/// Pending connection `c` with message `m` buffered after the others.
pub open spec fn pending_buffered<P>(c: PendingView<P>, m: (Seq<char>, P)) -> PendingView<P> {
    PendingView { cid: c.cid, topics: c.topics, lattices: c.lattices, buffer: c.buffer.push(m) }
}

/// The subscription of `c` to `t`, if any.
pub open spec fn sub_of(
    topics: Map<Seq<char>, Map<u64, Subscription>>,
    t: Seq<char>,
    c: u64,
) -> Option<Subscription> {
    if topics.contains_key(t) && topics[t].contains_key(c) {
        Some(topics[t][c])
    } else {
        None
    }
}

/// Subscribes `cid` to `topic` with kind `s`.
fn add_subscription(
    topics: &mut KeyMap<String, KeyMap<Cid, Subscription>>,
    topic: String,
    cid: Cid,
    s: Subscription,
)
    requires
        old(topics).wf(),
    ensures
        final(topics).wf(),
        final(topics)@ == add_sub(old(topics)@, topic@, cid@, s),
{
    let mut subs = match topics.remove(&topic) {
        Some(m) => m,
        None => KeyMap::new(),
    };
    subs.insert(cid, s);
    topics.insert(topic, subs);
    proof {
        assert(topics@ =~= add_sub(old(topics)@, topic@, cid@, s));
    }
}

/// Drops the subscription of `cid` to `topic`, and the topic itself where
/// no subscriber is left; gives back the dropped subscription.
fn unsubscribe_topic(
    topics: &mut KeyMap<String, KeyMap<Cid, Subscription>>,
    topic: &String,
    cid: Cid,
) -> (r: Option<Subscription>)
    requires
        old(topics).wf(),
    ensures
        final(topics).wf(),
        final(topics)@ == drop_sub(old(topics)@, topic@, cid@),
        r == sub_of(old(topics)@, topic@, cid@),
{
    match topics.remove(topic) {
        None => {
            proof {
                assert(topics@ =~= old(topics)@);
            }
            None
        },
        Some(mut subs) => {
            let sub = subs.remove(&cid);
            if !subs.is_empty() {
                topics.insert(topic.clone(), subs);
            }
            proof {
                assert(topics@ =~= drop_sub(old(topics)@, topic@, cid@));
            }
            sub
        },
    }
}

/// The pending connections after each one that `subs` names as pending
/// has buffered `m`.
pub open spec fn buffer_for<P>(
    pending: Map<u64, PendingView<P>>,
    subs: Map<u64, Subscription>,
    m: (Seq<char>, P),
) -> Map<u64, PendingView<P>> {
    Map::new(
        |c: u64| pending.contains_key(c),
        |c: u64|
            if subs.contains_key(c) && subs[c] == Subscription::Pending {
                pending_buffered(pending[c], m)
            } else {
                pending[c]
            },
    )
}

/// What a session sees of lattice `l`: its private rooms, each with the
/// shared values of the room laid over.
pub open spec fn lattice_from_view(l: LatticeView, s: Seq<char>) -> Map<Seq<char>, ValuesView> {
    let mine = session_or_empty(l.private, s);
    Map::new(
        |k: Seq<char>| mine.contains_key(k),
        |k: Seq<char>|
            if l.shared.contains_key(k) {
                values_overlay(mine[k], l.shared[k])
            } else {
                mine[k]
            },
    )
}

/// The connections of a session attached to namespace `ns`, or none.
pub open spec fn attached(m: Map<Seq<char>, Set<u64>>, ns: Seq<char>) -> Set<u64> {
    if m.contains_key(ns) {
        m[ns]
    } else {
        Set::empty()
    }
}

/// Session `s` with attachments `l`.
pub open spec fn session_lattices<P>(s: SessionView<P>, l: Map<Seq<char>, Set<u64>>) -> SessionView<P> {
    SessionView {
        active_until: s.active_until,
        connections: s.connections,
        lattices: l,
        metadata: s.metadata,
    }
}

/// The attachments after connection `c` attaches to `ns`.
pub open spec fn attach_to(m: Map<Seq<char>, Set<u64>>, ns: Seq<char>, c: u64) -> Map<
    Seq<char>,
    Set<u64>,
> {
    m.insert(ns, attached(m, ns).insert(c))
}

/// The attachments after connection `c` detaches from `ns`; a namespace
/// left without connections goes away.
pub open spec fn detach_from(m: Map<Seq<char>, Set<u64>>, ns: Seq<char>, c: u64) -> Map<
    Seq<char>,
    Set<u64>,
> {
    if !m.contains_key(ns) {
        m
    } else if m[ns].remove(c).is_empty() {
        m.remove(ns)
    } else {
        m.insert(ns, m[ns].remove(c))
    }
}

/// The data that a session is sent when it attaches to a lattice.
fn lattice_from(lat: &Lattice, session: &String) -> (r: StrMap<Values>)
    requires
        lat.valid(),
    ensures
        r.wf(),
        r@ == lattice_from_view(lat@, session@),
{
    let mut data: StrMap<Values> = StrMap::new();
    match lat.private.get(session) {
        None => {
            proof {
                assert(data@ =~= lattice_from_view(lat@, session@));
            }
        },
        Some(mine) => {
            let ghost keys = mine.keys();
            let ghost want = lattice_from_view(lat@, session@);
            proof {
                mine.lemma_wf();
                assert(data@ =~= want.restrict(keys.take(0).to_set()));
            }
            let mut i: usize = 0;
            while i < mine.len()
                invariant
                    lat.valid(),
                    mine.wf(),
                    mine@ == lat@.private[session@],
                    lat@.private.contains_key(session@),
                    keys == mine.keys(),
                    mine@.dom() == keys.to_set(),
                    want == lattice_from_view(lat@, session@),
                    i <= keys.len(),
                    data.wf(),
                    data@ == want.restrict(keys.take(i as int).to_set()),
                decreases keys.len() - i,
            {
                let k = mine.key_at(i);
                let mut v = mine.value_at(i).duplicate();
                match lat.shared.get(k) {
                    Some(pubval) => v.update(pubval),
                    None => {},
                }
                data.insert(k.clone(), v);
                proof {
                    assert(keys.take(i + 1) =~= keys.take(i as int).push(k@));
                    keys.take(i as int).lemma_push_to_set_commute(k@);
                    assert(data@ =~= want.restrict(keys.take(i + 1).to_set()));
                }
                i = i + 1;
            }
            proof {
                assert(keys.take(keys.len() as int) =~= keys);
                assert(want.restrict(keys.to_set()) =~= want);
            }
        },
    }
    data
}

/// Detaches connection `cid` of session `sess` from namespace `ns`.
fn remove_attachment<P>(sess: &mut Session<P>, ns: &String, cid: Cid)
    requires
        old(sess).valid(),
    ensures
        final(sess).valid(),
        final(sess)@ == session_lattices(old(sess)@, detach_from(old(sess)@.lattices, ns@, cid@)),
{
    match sess.lattices.remove(ns) {
        Some(mut set) => {
            set.remove(&cid);
            if !set.is_empty() {
                sess.lattices.insert(ns.clone(), set);
            }
            proof {
                assert(sess.lattices@ =~= detach_from(old(sess)@.lattices, ns@, cid@));
            }
        },
        None => {
            proof {
                assert(sess.lattices@ =~= old(sess)@.lattices);
            }
        },
    }
}

/// Session `s` with the time until which it is active.
pub open spec fn session_until<P>(s: SessionView<P>, u: Option<u64>) -> SessionView<P> {
    SessionView {
        active_until: u,
        connections: s.connections,
        lattices: s.lattices,
        metadata: s.metadata,
    }
}

/// A session without connections, attachments or metadata, not active.
pub open spec fn blank_session<P>() -> SessionView<P> {
    SessionView {
        active_until: None,
        connections: Set::empty(),
        lattices: Map::empty(),
        metadata: None,
    }
}

/// The session `sid` of `m`, or a blank one.
pub open spec fn session_or_blank<P>(m: Map<Seq<char>, SessionView<P>>, sid: Seq<char>) -> SessionView<P> {
    if m.contains_key(sid) {
        m[sid]
    } else {
        blank_session()
    }
}

/// The time until which a session is active after activity until `t`: an
/// active session keeps the later of its time and `t`; an inactive or new
/// one is active until `t`.
pub open spec fn activity_until(u: Option<u64>, t: u64) -> u64 {
    match u {
        Some(d) => if d < t { t } else { d },
        None => t,
    }
}

/// The session is active until a time before `now`.
pub open spec fn expired<P>(s: SessionView<P>, now: u64) -> bool {
    s.active_until matches Some(d) && d < now
}

/// The time until which the session is active (zero for an inactive one).
pub open spec fn until_of<P>(s: SessionView<P>) -> u64 {
    match s.active_until {
        Some(d) => d,
        None => 0,
    }
}

/// The sessions after the cleanup at `now`: each expired session becomes
/// inactive, or goes away where it has no connection left.
pub open spec fn after_cleanup<P>(m: Map<Seq<char>, SessionView<P>>, now: u64) -> Map<
    Seq<char>,
    SessionView<P>,
> {
    Map::new(
        |x: Seq<char>| m.contains_key(x) && !(expired(m[x], now) && m[x].connections.is_empty()),
        |x: Seq<char>|
            if expired(m[x], now) {
                session_until(m[x], None)
            } else {
                m[x]
            },
    )
}

/// The note that session `sid` went inactive.
pub open spec fn inactive_note<P>(sid: Seq<char>, s: SessionView<P>) -> Note<P> {
    Note::Inactive(sid, s.connections.len(), s.metadata)
}

/// The session that an inactivity note names.
pub open spec fn noted_session<P>(n: Note<P>) -> Seq<char> {
    match n {
        Note::Inactive(sid, _, _) => sid,
        _ => Seq::empty(),
    }
}

/// A copy of an optional shared pointer.
fn share_opt<P>(o: &Option<Arc<P>>) -> (r: Option<Arc<P>>)
    ensures
        opt_deref(r) == opt_deref(*o),
{
    match o {
        Some(a) => Some(share(a)),
        None => None,
    }
}

/// The attachments after connection `c` detaches from each of `nss`.
pub open spec fn detach_all(m: Map<Seq<char>, Set<u64>>, nss: Set<Seq<char>>, c: u64) -> Map<
    Seq<char>,
    Set<u64>,
> {
    Map::new(
        |ns: Seq<char>| m.contains_key(ns) && !(nss.contains(ns) && m[ns].remove(c).is_empty()),
        |ns: Seq<char>| if nss.contains(ns) { m[ns].remove(c) } else { m[ns] },
    )
}

/// Session `s` after its connection `c` closed: an inactive session also
/// detaches it from its lattices.
pub open spec fn session_without<P>(s: SessionView<P>, c: ConnView) -> SessionView<P> {
    SessionView {
        active_until: s.active_until,
        connections: s.connections.remove(c.cid),
        lattices: if s.active_until is None {
            detach_all(s.lattices, c.lattices, c.cid)
        } else {
            s.lattices
        },
        metadata: s.metadata,
    }
}

/// The sessions after connection `c` closed: an inactive session left
/// without connections goes away.
pub open spec fn sessions_without<P>(m: Map<Seq<char>, SessionView<P>>, c: ConnView) -> Map<
    Seq<char>,
    SessionView<P>,
> {
    let s = m[c.session_id];
    if s.active_until is None && s.connections.remove(c.cid).is_empty() {
        m.remove(c.session_id)
    } else {
        m.insert(c.session_id, session_without(s, c))
    }
}

/// Drops the subscriptions of `cid` to each of `ts`.
fn unsubscribe_all(
    topics: &mut KeyMap<String, KeyMap<Cid, Subscription>>,
    ts: &KeySet<String>,
    cid: Cid,
)
    requires
        old(topics).wf(),
        ts.wf(),
    ensures
        final(topics).wf(),
        final(topics)@ == drop_subs(old(topics)@, ts@, cid@),
{
    let ghost t0 = topics@;
    let ghost e = ts.elems();
    proof {
        assert(topics@ =~= drop_subs(t0, e.take(0).to_set(), cid@));
    }
    let mut i: usize = 0;
    while i < ts.len()
        invariant
            topics.wf(),
            ts.wf(),
            e == ts.elems(),
            i <= e.len(),
            topics@ == drop_subs(t0, e.take(i as int).to_set(), cid@),
        decreases e.len() - i,
    {
        let t = ts.item_at(i);
        let ghost before = e.take(i as int).to_set();
        unsubscribe_topic(topics, t, cid);
        proof {
            ts.lemma_unique();
            assert(!before.contains(t@)) by {
                if before.contains(t@) {
                    let j = e.take(i as int).index_of(t@);
                    assert(e[j] == e[i as int]);
                }
            }
            assert(e.take(i + 1) =~= e.take(i as int).push(t@));
            e.take(i as int).lemma_push_to_set_commute(t@);
            assert(topics@ =~= drop_subs(t0, e.take(i + 1).to_set(), cid@));
        }
        i = i + 1;
    }
    proof {
        assert(e.take(e.len() as int) =~= e);
    }
}

/// Detaches connection `cid` of session `sess` from each of `nss`.
fn detach_all_of<P>(sess: &mut Session<P>, nss: &KeySet<String>, cid: Cid)
    requires
        old(sess).valid(),
        nss.wf(),
    ensures
        final(sess).valid(),
        final(sess)@ == session_lattices(old(sess)@, detach_all(old(sess)@.lattices, nss@, cid@)),
{
    let ghost s0 = sess@;
    let ghost e = nss.elems();
    proof {
        assert(sess@.lattices =~= detach_all(s0.lattices, e.take(0).to_set(), cid@));
    }
    let mut i: usize = 0;
    while i < nss.len()
        invariant
            sess.valid(),
            nss.wf(),
            e == nss.elems(),
            i <= e.len(),
            sess@ == session_lattices(s0, detach_all(s0.lattices, e.take(i as int).to_set(), cid@)),
        decreases e.len() - i,
    {
        let ns = nss.item_at(i);
        let ghost before = e.take(i as int).to_set();
        remove_attachment(sess, ns, cid);
        proof {
            nss.lemma_unique();
            assert(!before.contains(ns@)) by {
                if before.contains(ns@) {
                    let j = e.take(i as int).index_of(ns@);
                    assert(e[j] == e[i as int]);
                }
            }
            assert(e.take(i + 1) =~= e.take(i as int).push(ns@));
            e.take(i as int).lemma_push_to_set_commute(ns@);
            assert(sess@.lattices =~= detach_all(s0.lattices, e.take(i + 1).to_set(), cid@));
        }
        i = i + 1;
    }
    proof {
        assert(e.take(e.len() as int) =~= e);
    }
}

/// The topics after the pending subscriptions of `c` to each of `ts`
/// become session subscriptions.
pub open spec fn promote_subs(
    topics: Map<Seq<char>, Map<u64, Subscription>>,
    ts: Set<Seq<char>>,
    c: u64,
) -> Map<Seq<char>, Map<u64, Subscription>> {
    Map::new(
        |t: Seq<char>| topics.contains_key(t),
        |t: Seq<char>|
            if ts.contains(t) {
                topics[t].insert(c, Subscription::Session)
            } else {
                topics[t]
            },
    )
}

/// The attachments after connection `c` attaches to each of `nss`.
pub open spec fn attach_all(m: Map<Seq<char>, Set<u64>>, nss: Set<Seq<char>>, c: u64) -> Map<
    Seq<char>,
    Set<u64>,
> {
    Map::new(
        |ns: Seq<char>| m.contains_key(ns) || nss.contains(ns),
        |ns: Seq<char>| if nss.contains(ns) { attached(m, ns).insert(c) } else { m[ns] },
    )
}

/// Session `sid` of `m` once pending connection `p` joins it at time `t`
/// with metadata `md`: an inactive session becomes active until `t`, an
/// active or new one until `t` plus the timeout.
pub open spec fn session_joined<P>(
    m: Map<Seq<char>, SessionView<P>>,
    sid: Seq<char>,
    p: PendingView<P>,
    t: u64,
    timeout: u64,
    md: P,
) -> SessionView<P> {
    let s = session_or_blank(m, sid);
    SessionView {
        active_until: Some(
            if m.contains_key(sid) && s.active_until is None {
                t
            } else {
                (t + timeout) as u64
            },
        ),
        connections: s.connections.insert(p.cid),
        lattices: attach_all(s.lattices, p.lattices, p.cid),
        metadata: Some(md),
    }
}

/// The messages that connection `c` gets from its buffer.
pub open spec fn buffer_notes<P>(c: u64, b: Seq<(Seq<char>, P)>) -> Seq<Note<P>> {
    b.map_values(|m: (Seq<char>, P)| Note::Publish(c, m.0, m.1))
}

/// Whether some session lists connection `cid` among its lattice
/// attachments.
fn attached_anywhere<P>(sessions: &KeyMap<String, Session<P>>, cid: &Cid) -> (r: bool)
    requires
        sessions.wf(),
    ensures
        r == !unattached(sessions@, cid@),
{
    let ghost sk = sessions.keys();
    proof {
        sessions.lemma_wf();
    }
    let mut i: usize = 0;
    while i < sessions.len()
        invariant
            sessions.wf(),
            sk == sessions.keys(),
            i <= sk.len(),
            sessions@.dom() == sk.to_set(),
            forall|k: int, ns: Seq<char>|
                0 <= k < i && #[trigger] sessions@[sk[k]].lattices.contains_key(ns)
                    ==> !sessions@[sk[k]].lattices[ns].contains(cid@),
        decreases sk.len() - i,
    {
        let sess = sessions.value_at(i);
        let lats = &sess.lattices;
        let ghost lk = lats.keys();
        proof {
            lats.lemma_wf();
            assert(sk.contains(sk[i as int]));
        }
        let mut j: usize = 0;
        while j < lats.len()
            invariant
                sessions.wf(),
                sk == sessions.keys(),
                i < sk.len(),
                sess@ == sessions@[sk[i as int]],
                lats.wf(),
                lats@ == sess@.lattices,
                lk == lats.keys(),
                lats@.dom() == lk.to_set(),
                sessions@.dom() == sk.to_set(),
                j <= lk.len(),
                forall|m: int| 0 <= m < j ==> !(#[trigger] lats@[lk[m]]).contains(cid@),
            decreases lk.len() - j,
        {
            if lats.value_at(j).contains(cid) {
                proof {
                    assert(sk.contains(sk[i as int]));
                    assert(lk.contains(lk[j as int]));
                    assert(sessions@.contains_key(sk[i as int]));
                    assert(lats@.contains_key(lk[j as int]));
                    assert(sessions@[sk[i as int]].lattices[lk[j as int]].contains(cid@));
                }
                return true;
            }
            j = j + 1;
        }
        proof {
            assert forall|k: int, ns: Seq<char>|
                0 <= k < i + 1 && #[trigger] sessions@[sk[k]].lattices.contains_key(ns)
                    implies !sessions@[sk[k]].lattices[ns].contains(cid@) by {
                if k == i {
                    assert(lk.contains(ns));
                    let m = lk.index_of(ns);
                    assert(lats@[lk[m]] == lats@[ns]);
                }
            }
        }
        i = i + 1;
    }
    proof {
        assert forall|s: Seq<char>, ns: Seq<char>|
            sessions@.contains_key(s) && #[trigger] sessions@[s].lattices.contains_key(ns)
                implies !sessions@[s].lattices[ns].contains(cid@) by {
            assert(sk.contains(s));
            let k = sk.index_of(s);
            assert(sessions@[sk[k]].lattices.contains_key(ns));
        }
    }
    false
}

/// Whether each of `nss` is a namespace of `lattices`.
fn all_known(lattices: &KeyMap<String, Lattice>, nss: &KeySet<String>) -> (r: bool)
    requires
        lattices.wf(),
    ensures
        r == nss@.subset_of(lattices@.dom()),
{
    let ghost e = nss.elems();
    let mut i: usize = 0;
    while i < nss.len()
        invariant
            lattices.wf(),
            e == nss.elems(),
            i <= e.len(),
            forall|k: int| 0 <= k < i ==> lattices@.contains_key(#[trigger] e[k]),
        decreases e.len() - i,
    {
        if !lattices.contains_key(nss.item_at(i)) {
            return false;
        }
        i = i + 1;
    }
    proof {
        assert forall|ns: Seq<char>| nss@.contains(ns) implies lattices@.contains_key(ns) by {
            let k = e.index_of(ns);
            assert(e[k] == ns);
        }
    }
    true
}

/// Attaches connection `cid` of session `sess` to each of `nss`.
fn attach_all_of<P>(sess: &mut Session<P>, nss: &KeySet<String>, cid: Cid)
    requires
        old(sess).valid(),
        nss.wf(),
    ensures
        final(sess).valid(),
        final(sess)@ == session_lattices(old(sess)@, attach_all(old(sess)@.lattices, nss@, cid@)),
{
    let ghost s0 = sess@;
    let ghost e = nss.elems();
    proof {
        assert(sess@.lattices =~= attach_all(s0.lattices, e.take(0).to_set(), cid@));
    }
    let mut i: usize = 0;
    while i < nss.len()
        invariant
            sess.valid(),
            nss.wf(),
            e == nss.elems(),
            i <= e.len(),
            sess@ == session_lattices(s0, attach_all(s0.lattices, e.take(i as int).to_set(), cid@)),
        decreases e.len() - i,
    {
        let ns = nss.item_at(i);
        let ghost before = e.take(i as int).to_set();
        let mut set = match sess.lattices.remove(ns) {
            Some(set) => set,
            None => KeySet::new(),
        };
        set.insert(cid);
        sess.lattices.insert(ns.clone(), set);
        proof {
            nss.lemma_unique();
            assert(!before.contains(ns@)) by {
                if before.contains(ns@) {
                    let j = e.take(i as int).index_of(ns@);
                    assert(e[j] == e[i as int]);
                }
            }
            assert(e.take(i + 1) =~= e.take(i as int).push(ns@));
            e.take(i as int).lemma_push_to_set_commute(ns@);
            assert(sess@.lattices =~= attach_all(s0.lattices, e.take(i + 1).to_set(), cid@));
        }
        i = i + 1;
    }
    proof {
        assert(e.take(e.len() as int) =~= e);
    }
}

/// Turns the pending subscriptions of `cid` to each of `ts` into session
/// subscriptions.
fn promote_all(topics: &mut KeyMap<String, KeyMap<Cid, Subscription>>, ts: &KeySet<String>, cid: Cid)
    requires
        old(topics).wf(),
        ts.wf(),
        ts@.subset_of(old(topics)@.dom()),
    ensures
        final(topics).wf(),
        final(topics)@ == promote_subs(old(topics)@, ts@, cid@),
{
    let ghost t0 = topics@;
    let ghost e = ts.elems();
    proof {
        assert(topics@ =~= promote_subs(t0, e.take(0).to_set(), cid@));
    }
    let mut i: usize = 0;
    while i < ts.len()
        invariant
            topics.wf(),
            ts.wf(),
            e == ts.elems(),
            i <= e.len(),
            ts@.subset_of(t0.dom()),
            topics@ == promote_subs(t0, e.take(i as int).to_set(), cid@),
        decreases e.len() - i,
    {
        let t = ts.item_at(i);
        let ghost before = e.take(i as int).to_set();
        add_subscription(topics, t.clone(), cid, Subscription::Session);
        proof {
            ts.lemma_unique();
            assert(!before.contains(t@)) by {
                if before.contains(t@) {
                    let j = e.take(i as int).index_of(t@);
                    assert(e[j] == e[i as int]);
                }
            }
            assert(e.take(i + 1) =~= e.take(i as int).push(t@));
            e.take(i as int).lemma_push_to_set_commute(t@);
            assert(topics@ =~= promote_subs(t0, e.take(i + 1).to_set(), cid@));
        }
        i = i + 1;
    }
    proof {
        assert(e.take(e.len() as int) =~= e);
    }
}

/// The sessions subscribed to room `k`, or none.
pub open spec fn subscribers(subs: Map<Seq<char>, Set<Seq<char>>>, k: Seq<char>) -> Set<Seq<char>> {
    if subs.contains_key(k) {
        subs[k]
    } else {
        Set::empty()
    }
}

/// Session `s` has private data in room `k` of `private`.
pub open spec fn has_room(private: Map<Seq<char>, Map<Seq<char>, ValuesView>>, s: Seq<char>, k: Seq<char>) -> bool {
    private.contains_key(s) && private[s].contains_key(k)
}

/// The room subscriptions once every session with private data in `private`
/// is subscribed to each of its rooms.
pub open spec fn subs_after(
    subs: Map<Seq<char>, Set<Seq<char>>>,
    private: Map<Seq<char>, Map<Seq<char>, ValuesView>>,
) -> Map<Seq<char>, Set<Seq<char>>> {
    Map::new(
        |k: Seq<char>| subs.contains_key(k) || exists|s: Seq<char>| has_room(private, s, k),
        |k: Seq<char>| subscribers(subs, k).union(Set::new(|s: Seq<char>| has_room(private, s, k))),
    )
}

/// The rooms of session `s` in `private` that it was not subscribed to.
pub open spec fn new_rooms(
    subs: Map<Seq<char>, Set<Seq<char>>>,
    private: Map<Seq<char>, Map<Seq<char>, ValuesView>>,
    s: Seq<char>,
) -> Set<Seq<char>> {
    Set::new(|k: Seq<char>| has_room(private, s, k) && !subscribers(subs, k).contains(s))
}

/// Subscribes each session of `private` to each of its rooms; gives back,
/// for each session of `private`, the rooms it was not subscribed to.
fn subscribe_rooms(subs: &mut StrMap<StrSet>, private: &StrMap<StrMap<Values>>) -> (nk: StrMap<StrSet>)
    requires
        old(subs).wf(),
        private.wf(),
    ensures
        final(subs).wf(),
        nk.wf(),
        final(subs)@ == subs_after(old(subs)@, private@),
        nk@ == Map::new(
            |s: Seq<char>| private@.contains_key(s),
            |s: Seq<char>| new_rooms(old(subs)@, private@, s),
        ),
{
    let ghost s0 = subs@;
    let ghost pv = private@;
    let ghost sids = private.keys();
    let mut nk: StrMap<StrSet> = StrMap::new();
    proof {
        private.lemma_wf();
    }
    let mut i: usize = 0;
    while i < private.len()
        invariant
            subs.wf(),
            private.wf(),
            nk.wf(),
            pv == private@,
            sids == private.keys(),
            sids.no_duplicates(),
            pv.dom() == sids.to_set(),
            i <= sids.len(),
            forall|k: Seq<char>, x: Seq<char>|
                #[trigger] subscribers(subs@, k).contains(x) <==> (subscribers(s0, k).contains(x)
                    || (sids.take(i as int).contains(x) && has_room(pv, x, k))),
            forall|k: Seq<char>|
                #[trigger] subs@.contains_key(k) <==> (s0.contains_key(k) || exists|x: Seq<char>|
                    sids.take(i as int).contains(x) && #[trigger] has_room(pv, x, k)),
            nk@ == Map::new(
                |x: Seq<char>| sids.take(i as int).contains(x),
                |x: Seq<char>| new_rooms(s0, pv, x),
            ),
        decreases sids.len() - i,
    {
        let sid = private.key_at(i);
        let rooms = private.value_at(i);
        let ghost keys = rooms.keys();
        let ghost done = sids.take(i as int);
        proof {
            rooms.lemma_wf();
            assert(!done.contains(sid@)) by {
                if done.contains(sid@) {
                    let j = done.index_of(sid@);
                    assert(sids[j] == sids[i as int]);
                }
            }
        }
        let mut mine: StrSet = StrSet::new();
        let mut j: usize = 0;
        while j < rooms.len()
            invariant
                subs.wf(),
                rooms.wf(),
                mine.wf(),
                rooms@ == pv[sid@],
                pv.contains_key(sid@),
                keys == rooms.keys(),
                keys.no_duplicates(),
                rooms@.dom() == keys.to_set(),
                j <= keys.len(),
                !done.contains(sid@),
                forall|k: Seq<char>, x: Seq<char>|
                    #[trigger] subscribers(subs@, k).contains(x) <==> (subscribers(s0, k).contains(x)
                        || (done.contains(x) && has_room(pv, x, k))
                        || (x == sid@ && keys.take(j as int).contains(k))),
                forall|k: Seq<char>|
                    #[trigger] subs@.contains_key(k) <==> (s0.contains_key(k) || (exists|x: Seq<char>|
                        done.contains(x) && #[trigger] has_room(pv, x, k)) || keys.take(j as int).contains(k)),
                mine@ == Set::new(|k: Seq<char>| keys.take(j as int).contains(k) && !subscribers(s0, k).contains(sid@)),
            decreases keys.len() - j,
        {
            let k = rooms.key_at(j);
            let ghost sb = subs@;
            proof {
                assert(!keys.take(j as int).contains(k@)) by {
                    if keys.take(j as int).contains(k@) {
                        let m = keys.take(j as int).index_of(k@);
                        assert(keys[m] == keys[j as int]);
                    }
                }
                assert(subscribers(sb, k@).contains(sid@) == subscribers(s0, k@).contains(sid@));
            }
            let mut set = match subs.remove(k) {
                Some(set) => set,
                None => StrSet::new(),
            };
            let fresh = set.insert(sid.clone());
            subs.insert(k.clone(), set);
            if fresh {
                mine.insert(k.clone());
            }
            proof {
                assert(keys.take(j + 1) =~= keys.take(j as int).push(k@));
                assert(!keys.take(j as int).contains(k@)) by {
                    if keys.take(j as int).contains(k@) {
                        let m = keys.take(j as int).index_of(k@);
                        assert(keys[m] == keys[j as int]);
                    }
                }
                assert forall|kk: Seq<char>| keys.take(j + 1).contains(kk) <==> (keys.take(j as int).contains(kk) || kk == k@) by {
                    if keys.take(j + 1).contains(kk) {
                        let m = keys.take(j + 1).index_of(kk);
                        if m < j {
                            assert(keys.take(j as int)[m] == kk);
                        }
                    }
                    if kk == k@ {
                        assert(keys.take(j + 1)[j as int] == kk);
                    }
                    if keys.take(j as int).contains(kk) {
                        let m = keys.take(j as int).index_of(kk);
                        assert(keys.take(j + 1)[m] == kk);
                    }
                }
                assert(subscribers(subs@, k@) =~= subscribers(sb, k@).insert(sid@));
                assert(fresh == !subscribers(s0, k@).contains(sid@));
                assert(mine@ =~= Set::new(|kk: Seq<char>| keys.take(j + 1).contains(kk) && !subscribers(s0, kk).contains(sid@)));
                assert forall|kk: Seq<char>, x: Seq<char>|
                    #[trigger] subscribers(subs@, kk).contains(x) <==> (subscribers(s0, kk).contains(x)
                        || (done.contains(x) && has_room(pv, x, kk))
                        || (x == sid@ && keys.take(j + 1).contains(kk))) by {
                    assert(subscribers(sb, kk).contains(x) <==> (subscribers(s0, kk).contains(x)
                        || (done.contains(x) && has_room(pv, x, kk))
                        || (x == sid@ && keys.take(j as int).contains(kk))));
                    if kk != k@ {
                        assert(subscribers(subs@, kk) == subscribers(sb, kk));
                    }
                }
                assert forall|kk: Seq<char>|
                    #[trigger] subs@.contains_key(kk) <==> (s0.contains_key(kk) || (exists|x: Seq<char>|
                        done.contains(x) && #[trigger] has_room(pv, x, kk)) || keys.take(j + 1).contains(kk)) by {
                }
            }
            j = j + 1;
        }
        let ghost newset = new_rooms(s0, pv, sid@);
        proof {
            assert(keys.take(keys.len() as int) =~= keys);
            assert(mine@ =~= newset) by {
                assert forall|k: Seq<char>| mine@.contains(k) <==> newset.contains(k) by {
                    if has_room(pv, sid@, k) {
                        assert(keys.to_set().contains(k));
                    }
                }
            }
        }
        nk.insert(sid.clone(), mine);
        proof {
            assert(sids.take(i + 1) =~= done.push(sid@));
            assert forall|x: Seq<char>| sids.take(i + 1).contains(x) <==> (done.contains(x) || x == sid@) by {
                if sids.take(i + 1).contains(x) {
                    let m = sids.take(i + 1).index_of(x);
                    if m < i {
                        assert(done[m] == x);
                    }
                }
                if x == sid@ {
                    assert(sids.take(i + 1)[i as int] == x);
                }
                if done.contains(x) {
                    let m = done.index_of(x);
                    assert(sids.take(i + 1)[m] == x);
                }
            }
            assert(nk@ =~= Map::new(
                |x: Seq<char>| sids.take(i + 1).contains(x),
                |x: Seq<char>| new_rooms(s0, pv, x),
            ));
            assert forall|k: Seq<char>, x: Seq<char>|
                #[trigger] subscribers(subs@, k).contains(x) <==> (subscribers(s0, k).contains(x)
                    || (sids.take(i + 1).contains(x) && has_room(pv, x, k))) by {
                if x == sid@ && has_room(pv, x, k) {
                    assert(keys.to_set().contains(k));
                }
                if keys.contains(k) {
                    assert(keys.to_set().contains(k));
                }
            }
            assert forall|k: Seq<char>|
                #[trigger] subs@.contains_key(k) <==> (s0.contains_key(k) || exists|x: Seq<char>|
                    sids.take(i + 1).contains(x) && #[trigger] has_room(pv, x, k)) by {
                if keys.contains(k) {
                    assert(sids.take(i + 1).contains(sid@) && has_room(pv, sid@, k));
                }
                if exists|x: Seq<char>| sids.take(i + 1).contains(x) && #[trigger] has_room(pv, x, k) {
                    let x = choose|x: Seq<char>| sids.take(i + 1).contains(x) && #[trigger] has_room(pv, x, k);
                    if x == sid@ {
                        assert(keys.to_set().contains(k));
                    } else {
                        assert(done.contains(x));
                    }
                }
            }
        }
        i = i + 1;
    }
    proof {
        assert(sids.take(sids.len() as int) =~= sids);
        assert(nk@ =~= Map::new(
            |s: Seq<char>| pv.contains_key(s),
            |s: Seq<char>| new_rooms(s0, pv, s),
        ));
        let want = subs_after(s0, pv);
        assert forall|k: Seq<char>| #[trigger] subs@.contains_key(k) <==> want.contains_key(k) by {
            if exists|x: Seq<char>| has_room(pv, x, k) {
                let x = choose|x: Seq<char>| has_room(pv, x, k);
                assert(sids.to_set().contains(x));
            }
        }
        assert forall|k: Seq<char>| #[trigger] subs@.contains_key(k) implies subs@[k] =~= want[k] by {
            assert forall|x: Seq<char>| subs@[k].contains(x) <==> want[k].contains(x) by {
                assert(subscribers(subs@, k) == subs@[k]);
                if has_room(pv, x, k) {
                    assert(sids.to_set().contains(x));
                }
            }
        }
        assert(subs@ =~= want);
    }
    nk
}

/// `rooms` with the values of `src` laid over each room of `src` that
/// `allowed` also has.
pub open spec fn overlay_allowed(
    rooms: Map<Seq<char>, ValuesView>,
    src: Map<Seq<char>, ValuesView>,
    allowed: Map<Seq<char>, ValuesView>,
) -> Map<Seq<char>, ValuesView> {
    Map::new(
        |r: Seq<char>| rooms.contains_key(r) || (src.contains_key(r) && allowed.contains_key(r)),
        |r: Seq<char>|
            if src.contains_key(r) && allowed.contains_key(r) {
                values_overlay(room_or_empty(rooms, r), src[r])
            } else {
                rooms[r]
            },
    )
}

/// `rooms` with the values of `src` laid over each of the rooms `names`
/// that `src` has.
pub open spec fn overlay_named(
    rooms: Map<Seq<char>, ValuesView>,
    names: Set<Seq<char>>,
    src: Map<Seq<char>, ValuesView>,
) -> Map<Seq<char>, ValuesView> {
    Map::new(
        |r: Seq<char>| rooms.contains_key(r) || (names.contains(r) && src.contains_key(r)),
        |r: Seq<char>|
            if names.contains(r) && src.contains_key(r) {
                values_overlay(room_or_empty(rooms, r), src[r])
            } else {
                rooms[r]
            },
    )
}

/// The connections of session `sid` attached to `ns` that exist.
pub open spec fn lattice_targets<P>(
    sessions: Map<Seq<char>, SessionView<P>>,
    conns: Map<u64, ConnView>,
    sid: Seq<char>,
    ns: Seq<char>,
) -> Set<u64> {
    if sessions.contains_key(sid) {
        attached(sessions[sid].lattices, ns).filter(|c: u64| conns.contains_key(c))
    } else {
        Set::empty()
    }
}

/// What a sequence with one more element at its end contains.
pub(crate) proof fn lemma_push_contains<A>(s: Seq<A>, v: A)
    ensures
        forall|x: A| #[trigger] s.push(v).contains(x) <==> (s.contains(x) || x == v),
{
    assert forall|x: A| #[trigger] s.push(v).contains(x) <==> (s.contains(x) || x == v) by {
        if s.push(v).contains(x) {
            let k = s.push(v).index_of(x);
            if k < s.len() {
                assert(s[k] == x);
            }
        }
        if x == v {
            assert(s.push(v)[s.len() as int] == x);
        }
        if s.contains(x) {
            let k = s.index_of(x);
            assert(s.push(v)[k] == x);
        }
    }
}

/// The membership of an element in a prefix grows one element at a time.
pub(crate) proof fn lemma_take_next<A>(s: Seq<A>, i: int)
    requires
        0 <= i < s.len(),
    ensures
        forall|x: A| #[trigger] s.take(i + 1).contains(x) <==> (s.take(i).contains(x) || x == s[i]),
{
    assert forall|x: A| #[trigger] s.take(i + 1).contains(x) <==> (s.take(i).contains(x) || x == s[i]) by {
        if s.take(i + 1).contains(x) {
            let m = s.take(i + 1).index_of(x);
            if m < i {
                assert(s.take(i)[m] == x);
            }
        }
        if x == s[i] {
            assert(s.take(i + 1)[i] == x);
        }
        if s.take(i).contains(x) {
            let m = s.take(i).index_of(x);
            assert(s.take(i + 1)[m] == x);
        }
    }
}

/// Lays the values of `src` over each room of `rooms` that `allowed` has.
fn lay_allowed(rooms: &mut StrMap<Values>, src: &StrMap<Values>, allowed: &StrMap<Values>)
    requires
        old(rooms).wf(),
        src.wf(),
        allowed.wf(),
    ensures
        final(rooms).wf(),
        final(rooms)@ == overlay_allowed(old(rooms)@, src@, allowed@),
{
    let ghost r0 = rooms@;
    let ghost keys = src.keys();
    proof {
        src.lemma_wf();
        assert(rooms@ =~= overlay_allowed(r0, src@.restrict(keys.take(0).to_set()), allowed@));
    }
    let mut i: usize = 0;
    while i < src.len()
        invariant
            rooms.wf(),
            src.wf(),
            allowed.wf(),
            keys == src.keys(),
            keys.no_duplicates(),
            src@.dom() == keys.to_set(),
            i <= keys.len(),
            rooms@ == overlay_allowed(r0, src@.restrict(keys.take(i as int).to_set()), allowed@),
        decreases keys.len() - i,
    {
        let room = src.key_at(i);
        let ghost before = keys.take(i as int).to_set();
        proof {
            lemma_take_next(keys, i as int);
            assert(!keys.take(i as int).contains(room@)) by {
                if keys.take(i as int).contains(room@) {
                    let m = keys.take(i as int).index_of(room@);
                    assert(keys[m] == keys[i as int]);
                }
            }
        }
        if allowed.contains_key(room) {
            let mut v = match rooms.remove(room) {
                Some(v) => v,
                None => Values::new(),
            };
            v.update(src.value_at(i));
            rooms.insert(room.clone(), v);
        }
        proof {
            assert(rooms@ =~= overlay_allowed(r0, src@.restrict(keys.take(i + 1).to_set()), allowed@));
        }
        i = i + 1;
    }
    proof {
        assert(keys.take(keys.len() as int) =~= keys);
        assert(src@.restrict(keys.to_set()) =~= src@);
    }
}

/// Lays the values of `src` over each of the rooms `names` that `src` has.
fn lay_named(rooms: &mut StrMap<Values>, names: &StrSet, src: &StrMap<Values>)
    requires
        old(rooms).wf(),
        names.wf(),
        src.wf(),
    ensures
        final(rooms).wf(),
        final(rooms)@ == overlay_named(old(rooms)@, names@, src@),
{
    let ghost r0 = rooms@;
    let ghost e = names.elems();
    proof {
        names.lemma_unique();
        assert(rooms@ =~= overlay_named(r0, e.take(0).to_set(), src@));
    }
    let mut i: usize = 0;
    while i < names.len()
        invariant
            rooms.wf(),
            names.wf(),
            src.wf(),
            e == names.elems(),
            e.no_duplicates(),
            i <= e.len(),
            rooms@ == overlay_named(r0, e.take(i as int).to_set(), src@),
        decreases e.len() - i,
    {
        let room = names.item_at(i);
        proof {
            lemma_take_next(e, i as int);
            assert(!e.take(i as int).contains(room@)) by {
                if e.take(i as int).contains(room@) {
                    let m = e.take(i as int).index_of(room@);
                    assert(e[m] == e[i as int]);
                }
            }
        }
        match src.get(room) {
            Some(pv) => {
                let mut v = match rooms.remove(room) {
                    Some(v) => v,
                    None => Values::new(),
                };
                v.update(pv);
                rooms.insert(room.clone(), v);
            },
            None => {},
        }
        proof {
            assert(rooms@ =~= overlay_named(r0, e.take(i + 1).to_set(), src@));
        }
        i = i + 1;
    }
    proof {
        assert(e.take(e.len() as int) =~= e);
    }
}

/// Sends `data` on namespace `ns` to each connection of session `sid`
/// attached to `ns`; false where there is no such session.
fn send_lattice<P>(
    out: &mut Vec<Outgoing<P>>,
    sessions: &KeyMap<String, Session<P>>,
    conns: &KeyMap<Cid, Connection>,
    sid: &String,
    ns: &String,
    data: &Arc<StrMap<Values>>,
) -> (found: bool)
    requires
        sessions.wf(),
        conns.wf(),
    ensures
        found == sessions@.contains_key(sid@),
        final(out)@.len() >= old(out)@.len(),
        final(out)@.take(old(out)@.len() as int) == old(out)@,
        notes(final(out)@).skip(old(out)@.len() as int).no_duplicates(),
        forall|i: int|
            old(out)@.len() <= i < final(out)@.len() ==> (#[trigger] notes(final(out)@)[i] matches Note::Lattice(
                c,
                n,
                d,
            ) && n == ns@ && d == (**data)@ && lattice_targets(sessions@, conns@, sid@, ns@).contains(c)),
        forall|c: u64|
            #[trigger] lattice_targets(sessions@, conns@, sid@, ns@).contains(c) ==> notes(
                final(out)@,
            ).skip(old(out)@.len() as int).contains(Note::<P>::Lattice(c, ns@, (**data)@)),
{
    let ghost o0 = out@;
    let ghost start = out@.len() as int;
    let sess = match sessions.get(sid) {
        None => {
            proof {
                assert(out@.take(start) =~= o0);
                assert(notes(out@).skip(start) =~= Seq::<Note<P>>::empty());
            }
            return false;
        },
        Some(sess) => sess,
    };
    let targets = match sess.lattices.get(ns) {
        None => {
            proof {
                assert(out@.take(start) =~= o0);
                assert(notes(out@).skip(start) =~= Seq::<Note<P>>::empty());
                assert(lattice_targets(sessions@, conns@, sid@, ns@) =~= Set::<u64>::empty());
            }
            return true;
        },
        Some(t) => t,
    };
    let ghost e = targets.elems();
    let ghost want = lattice_targets(sessions@, conns@, sid@, ns@);
    proof {
        targets.lemma_unique();
    }
    let mut i: usize = 0;
    while i < targets.len()
        invariant
            conns.wf(),
            targets.wf(),
            e == targets.elems(),
            e.no_duplicates(),
            targets@ == attached(sessions@[sid@].lattices, ns@),
            sessions@.contains_key(sid@),
            want == lattice_targets(sessions@, conns@, sid@, ns@),
            i <= e.len(),
            out@.len() >= start,
            start == o0.len(),
            out@.take(start) == o0,
            forall|k: int| start <= k < out@.len() ==> exists|m: int| 0 <= m < i && conns@.contains_key(e[m])
                && #[trigger] out@[k]@ == Note::<P>::Lattice(e[m], ns@, (**data)@),
            forall|m: int| 0 <= m < i && conns@.contains_key(e[m]) ==> exists|k: int| start <= k < out@.len()
                && #[trigger] out@[k]@ == Note::<P>::Lattice(e[m], ns@, (**data)@),
            notes(out@).skip(start).no_duplicates(),
        decreases e.len() - i,
    {
        let c = *targets.item_at(i);
        let ghost o1 = out@;
        if conns.contains_key(&c) {
            out.push(Outgoing::ToConnection(c, ConnectionMessage::Lattice(ns.clone(), share(data))));
            proof {
                assert(out@.take(start) =~= o0) by {
                    assert(o1.take(start) == o0);
                }
                assert(notes(out@).skip(start) =~= notes(o1).skip(start).push(Note::<P>::Lattice(c@, ns@, (**data)@)));
                assert(!notes(o1).skip(start).contains(Note::<P>::Lattice(c@, ns@, (**data)@))) by {
                    if notes(o1).skip(start).contains(Note::<P>::Lattice(c@, ns@, (**data)@)) {
                        let k = notes(o1).skip(start).index_of(Note::<P>::Lattice(c@, ns@, (**data)@));
                        assert(o1[start + k]@ == Note::<P>::Lattice(c@, ns@, (**data)@));
                        let m = choose|m: int| 0 <= m < i && conns@.contains_key(e[m])
                            && #[trigger] o1[start + k]@ == Note::<P>::Lattice(e[m], ns@, (**data)@);
                        assert(e[m] == e[i as int]);
                    }
                }
                assert forall|k: int| start <= k < out@.len() implies exists|m: int| 0 <= m < i + 1 && conns@.contains_key(e[m])
                    && #[trigger] out@[k]@ == Note::<P>::Lattice(e[m], ns@, (**data)@) by {
                    if k < o1.len() {
                        assert(out@[k] == o1[k]);
                    } else {
                        assert(out@[k]@ == Note::<P>::Lattice(e[i as int], ns@, (**data)@));
                    }
                }
                assert forall|m: int| 0 <= m < i + 1 && conns@.contains_key(e[m]) implies exists|k: int| start <= k < out@.len()
                    && #[trigger] out@[k]@ == Note::<P>::Lattice(e[m], ns@, (**data)@) by {
                    if m < i {
                        let k = choose|k: int| start <= k < o1.len() && #[trigger] o1[k]@ == Note::<P>::Lattice(e[m], ns@, (**data)@);
                        assert(out@[k] == o1[k]);
                    } else {
                        assert(out@[o1.len() as int]@ == Note::<P>::Lattice(e[m], ns@, (**data)@));
                    }
                }
            }
        }
        i = i + 1;
    }
    proof {
        let n = notes(out@);
        assert forall|k: int|
            start <= k < out@.len() implies (#[trigger] n[k] matches Note::Lattice(c, nn, d) && nn == ns@
                && d == (**data)@ && want.contains(c)) by {
            let m = choose|m: int| 0 <= m < i && conns@.contains_key(e[m])
                && #[trigger] out@[k]@ == Note::<P>::Lattice(e[m], ns@, (**data)@);
            assert(e.contains(e[m]));
        }
        assert forall|c: u64| #[trigger] want.contains(c) implies n.skip(start).contains(
            Note::<P>::Lattice(c, ns@, (**data)@),
        ) by {
            assert(targets@.contains(c));
            let m = e.index_of(c);
            let k = choose|k: int| start <= k < out@.len() && #[trigger] out@[k]@ == Note::<P>::Lattice(e[m], ns@, (**data)@);
            assert(n.skip(start)[k - start] == n[k]);
        }
    }
    true
}

/// Session `sid` hears of the shared rooms `src`: it has no private data
/// in the update, and is subscribed to one of the rooms.
pub open spec fn shared_hearer(
    subs: Map<Seq<char>, Set<Seq<char>>>,
    src: Map<Seq<char>, ValuesView>,
    private: Map<Seq<char>, Map<Seq<char>, ValuesView>>,
    sid: Seq<char>,
) -> bool {
    !private.contains_key(sid) && exists|r: Seq<char>|
        src.contains_key(r) && #[trigger] subscribers(subs, r).contains(sid)
}

/// Connection `c` is attached to `ns` for a session that hears of the
/// shared rooms `src`.
pub open spec fn hearer_target<P>(
    sessions: Map<Seq<char>, SessionView<P>>,
    conns: Map<u64, ConnView>,
    subs: Map<Seq<char>, Set<Seq<char>>>,
    src: Map<Seq<char>, ValuesView>,
    private: Map<Seq<char>, Map<Seq<char>, ValuesView>>,
    ns: Seq<char>,
    c: u64,
) -> bool {
    exists|sid: Seq<char>|
        shared_hearer(subs, src, private, sid) && #[trigger] lattice_targets(sessions, conns, sid, ns).contains(c)
}

/// The notes from `start` on are shared updates `src` on `ns` to
/// connections of sessions that hear of them.
pub open spec fn shared_notes_ok<P>(
    n: Seq<Note<P>>,
    start: int,
    sessions: Map<Seq<char>, SessionView<P>>,
    conns: Map<u64, ConnView>,
    subs: Map<Seq<char>, Set<Seq<char>>>,
    src: Map<Seq<char>, ValuesView>,
    private: Map<Seq<char>, Map<Seq<char>, ValuesView>>,
    ns: Seq<char>,
) -> bool {
    forall|k: int|
        start <= k < n.len() ==> (#[trigger] n[k] matches Note::Lattice(c, nn, d) && nn == ns && d == src
            && hearer_target(sessions, conns, subs, src, private, ns, c))
}

/// The connection that a lattice message goes to.
pub open spec fn note_cid<P>(n: Note<P>) -> u64 {
    match n {
        Note::Lattice(c, _, _) => c,
        Note::Publish(c, _, _) => c,
        Note::Stop(c, _) => c,
        Note::Other(c) => c,
        Note::Inactive(_, _, _) => 0,
    }
}

/// Each message of `n` goes to a different connection.
pub open spec fn distinct_cids<P>(n: Seq<Note<P>>) -> bool {
    forall|i: int, j: int|
        0 <= i < j < n.len() ==> note_cid(#[trigger] n[i]) != note_cid(#[trigger] n[j])
}

/// A live connection is listed among the lattice attachments of its own
/// session only.
pub open spec fn live_owned<P>(sessions: Map<Seq<char>, SessionView<P>>, conns: Map<u64, ConnView>) -> bool {
    forall|s: Seq<char>, ns: Seq<char>, c: u64|
        #![trigger sessions[s].lattices[ns].contains(c)]
        sessions.contains_key(s) && sessions[s].lattices.contains_key(ns)
            && sessions[s].lattices[ns].contains(c) && conns.contains_key(c)
            ==> conns[c].session_id == s
}

/// Joining two runs of messages, each to different connections and with no
/// connection in both, gives a run to different connections.
proof fn lemma_distinct_join<P>(a: Seq<Note<P>>, b: Seq<Note<P>>)
    requires
        distinct_cids(a),
        distinct_cids(b),
        forall|i: int, j: int|
            0 <= i < a.len() && 0 <= j < b.len() ==> note_cid(#[trigger] a[i]) != note_cid(#[trigger] b[j]),
    ensures
        distinct_cids(a + b),
{
    let ab = a + b;
    assert forall|i: int, j: int| 0 <= i < j < ab.len() implies note_cid(#[trigger] ab[i]) != note_cid(
        #[trigger] ab[j],
    ) by {
        if j < a.len() {
            assert(ab[i] == a[i] && ab[j] == a[j]);
        } else if i >= a.len() {
            assert(ab[i] == b[i - a.len()] && ab[j] == b[j - a.len()]);
        } else {
            assert(ab[i] == a[i] && ab[j] == b[j - a.len()]);
        }
    }
}

/// Lattice messages on one namespace with one content and no repeats go to
/// different connections.
proof fn lemma_distinct_batch<P>(n: Seq<Note<P>>, ns: Seq<char>, d: Map<Seq<char>, ValuesView>)
    requires
        n.no_duplicates(),
        forall|k: int| 0 <= k < n.len() ==> (#[trigger] n[k] matches Note::Lattice(c, nn, dd) && nn == ns && dd == d),
    ensures
        distinct_cids(n),
{
    assert forall|i: int, j: int| 0 <= i < j < n.len() implies note_cid(#[trigger] n[i]) != note_cid(
        #[trigger] n[j],
    ) by {
        assert(n[i] != n[j]);
    }
}

/// Once the shared phase covered some sessions of `sent`, a further batch
/// for session `sid`, not among them, keeps the messages to different
/// connections, each of a session of `sent` with `sid`.
proof fn lemma_batch_added<P>(
    before: Seq<Note<P>>,
    batch: Seq<Note<P>>,
    sessions: Map<Seq<char>, SessionView<P>>,
    conns: Map<u64, ConnView>,
    sid: Seq<char>,
    ns: Seq<char>,
    d: Map<Seq<char>, ValuesView>,
    done: Set<Seq<char>>,
)
    requires
        live_owned(sessions, conns),
        distinct_cids(before),
        forall|k: int| 0 <= k < before.len() ==> conns.contains_key(note_cid(#[trigger] before[k]))
            && done.contains(conns[note_cid(before[k])].session_id),
        !done.contains(sid),
        batch.no_duplicates(),
        forall|k: int| 0 <= k < batch.len() ==> (#[trigger] batch[k] matches Note::Lattice(c, nn, dd) && nn == ns && dd
            == d && lattice_targets(sessions, conns, sid, ns).contains(c)),
    ensures
        distinct_cids(before + batch),
        forall|k: int| 0 <= k < batch.len() ==> conns.contains_key(note_cid(#[trigger] batch[k]))
            && conns[note_cid(batch[k])].session_id == sid,
{
    lemma_distinct_batch(batch, ns, d);
    assert forall|k: int| 0 <= k < batch.len() implies conns.contains_key(note_cid(#[trigger] batch[k]))
        && conns[note_cid(batch[k])].session_id == sid by {
        let c = note_cid(batch[k]);
        assert(lattice_targets(sessions, conns, sid, ns).contains(c));
        assert(sessions.contains_key(sid));
        assert(attached(sessions[sid].lattices, ns).contains(c));
        assert(sessions[sid].lattices.contains_key(ns));
        assert(sessions[sid].lattices[ns].contains(c));
    }
    assert forall|i: int, j: int| 0 <= i < before.len() && 0 <= j < batch.len() implies note_cid(
        #[trigger] before[i],
    ) != note_cid(#[trigger] batch[j]) by {
        assert(done.contains(conns[note_cid(before[i])].session_id));
        assert(conns[note_cid(batch[j])].session_id == sid);
    }
    lemma_distinct_join(before, batch);
}

/// Sends the shared rooms `pubdata` on namespace `ns` to the connections of
/// each session that hears of them.
fn send_shared<P>(
    out: &mut Vec<Outgoing<P>>,
    sessions: &KeyMap<String, Session<P>>,
    conns: &KeyMap<Cid, Connection>,
    subs: &StrMap<StrSet>,
    private: &StrMap<StrMap<Values>>,
    ns: &String,
    pubdata: &Arc<StrMap<Values>>,
)
    requires
        sessions.wf(),
        conns.wf(),
        subs.wf(),
        private.wf(),
        pubdata.wf(),
        live_owned(sessions@, conns@),
    ensures
        final(out)@.len() >= old(out)@.len(),
        distinct_cids(notes(final(out)@).skip(old(out)@.len() as int)),
        forall|k: int|
            old(out)@.len() <= k < final(out)@.len() ==> conns@.contains_key(
                note_cid(#[trigger] notes(final(out)@)[k]),
            ) && !private@.contains_key(conns@[note_cid(notes(final(out)@)[k])].session_id),
        final(out)@.take(old(out)@.len() as int) == old(out)@,
        shared_notes_ok(
            notes(final(out)@),
            old(out)@.len() as int,
            sessions@,
            conns@,
            subs@,
            (**pubdata)@,
            private@,
            ns@,
        ),
        forall|sid: Seq<char>, c: u64|
            shared_hearer(subs@, (**pubdata)@, private@, sid)
                && #[trigger] lattice_targets(sessions@, conns@, sid, ns@).contains(c)
                ==> notes(final(out)@).skip(old(out)@.len() as int).contains(
                Note::<P>::Lattice(c, ns@, (**pubdata)@),
            ),
{
    let ghost o0 = out@;
    let ghost start = out@.len() as int;
    let ghost pv = (**pubdata)@;
    let ghost rooms = pubdata.keys();
    let mut sent: StrSet = StrSet::new();
    proof {
        pubdata.lemma_wf();
    }
    let mut i: usize = 0;
    while i < pubdata.len()
        invariant
            sessions.wf(),
            conns.wf(),
            subs.wf(),
            private.wf(),
            pubdata.wf(),
            sent.wf(),
            pv == (**pubdata)@,
            rooms == pubdata.keys(),
            pv.dom() == rooms.to_set(),
            i <= rooms.len(),
            out@.len() >= start,
            start == o0.len(),
            out@.take(start) == o0,
            shared_notes_ok(notes(out@), start, sessions@, conns@, subs@, pv, private@, ns@),
            forall|x: Seq<char>| #[trigger] sent@.contains(x) ==> shared_hearer(subs@, pv, private@, x),
            live_owned(sessions@, conns@),
            distinct_cids(notes(out@).skip(start)),
            forall|k: int|
                start <= k < out@.len() ==> conns@.contains_key(note_cid(#[trigger] notes(out@)[k]))
                    && sent@.contains(conns@[note_cid(notes(out@)[k])].session_id),
            forall|x: Seq<char>, c: u64|
                #[trigger] sent@.contains(x) && #[trigger] lattice_targets(sessions@, conns@, x, ns@).contains(c)
                    ==> notes(out@).skip(start).contains(Note::<P>::Lattice(c, ns@, pv)),
            forall|m: int, x: Seq<char>|
                0 <= m < i && #[trigger] subscribers(subs@, rooms[m]).contains(x) && !private@.contains_key(x)
                    && sessions@.contains_key(x) ==> #[trigger] sent@.contains(x),
        decreases rooms.len() - i,
    {
        let room = pubdata.key_at(i);
        proof {
            assert(pv.contains_key(room@));
        }
        match subs.get(room) {
            None => {
                proof {
                    assert forall|m: int, x: Seq<char>|
                        0 <= m < i + 1 && #[trigger] subscribers(subs@, rooms[m]).contains(x)
                            && !private@.contains_key(x) && sessions@.contains_key(x)
                            implies #[trigger] sent@.contains(x) by {
                        if m == i {
                            assert(subscribers(subs@, rooms[m]) == Set::<Seq<char>>::empty());
                        }
                    }
                }
            },
            Some(sids) => {
                let ghost e = sids.elems();
                let mut j: usize = 0;
                while j < sids.len()
                    invariant
                        sessions.wf(),
                        conns.wf(),
                        subs.wf(),
                        private.wf(),
                        sent.wf(),
                        sids.wf(),
                        sids@ == subs@[room@],
                        subs@.contains_key(room@),
                        pv == (**pubdata)@,
                        pv.contains_key(room@),
                        room@ == rooms[i as int],
                        e == sids.elems(),
                        j <= e.len(),
                        i < rooms.len(),
                        out@.len() >= start,
                        start == o0.len(),
                        out@.take(start) == o0,
                        shared_notes_ok(notes(out@), start, sessions@, conns@, subs@, pv, private@, ns@),
                        forall|x: Seq<char>| #[trigger] sent@.contains(x) ==> shared_hearer(subs@, pv, private@, x),
                        live_owned(sessions@, conns@),
                        distinct_cids(notes(out@).skip(start)),
                        forall|k: int|
                            start <= k < out@.len() ==> conns@.contains_key(note_cid(#[trigger] notes(out@)[k]))
                                && sent@.contains(conns@[note_cid(notes(out@)[k])].session_id),
                        forall|x: Seq<char>, c: u64|
                            #[trigger] sent@.contains(x) && #[trigger] lattice_targets(sessions@, conns@, x, ns@).contains(c)
                                ==> notes(out@).skip(start).contains(Note::<P>::Lattice(c, ns@, pv)),
                        forall|m: int, x: Seq<char>|
                            0 <= m < i && #[trigger] subscribers(subs@, rooms[m]).contains(x) && !private@.contains_key(x)
                                && sessions@.contains_key(x) ==> #[trigger] sent@.contains(x),
                        forall|q: int|
                            0 <= q < j && !private@.contains_key(#[trigger] e[q]) && sessions@.contains_key(e[q])
                                ==> sent@.contains(e[q]),
                    decreases e.len() - j,
                {
                    let sid = sids.item_at(j);
                    proof {
                        assert(subscribers(subs@, room@).contains(sid@));
                    }
                    if !sent.contains(sid) && !private.contains_key(sid) {
                        let ghost o1 = out@;
                        let ghost sent0 = sent@;
                        let found = send_lattice(out, sessions, conns, sid, ns, pubdata);
                        proof {
                            assert(out@.take(start) =~= o0) by {
                                assert(out@.take(o1.len() as int) == o1);
                                assert forall|k: int| 0 <= k < start implies out@.take(start)[k] == o0[k] by {
                                    assert(out@[k] == o1[k]);
                                }
                            }
                            assert(shared_hearer(subs@, pv, private@, sid@));
                            assert forall|k: int| start <= k < out@.len() implies (#[trigger] notes(out@)[k] matches Note::Lattice(c, nn, d)
                                && nn == ns@ && d == pv
                                && hearer_target(sessions@, conns@, subs@, pv, private@, ns@, c)) by {
                                if k < o1.len() {
                                    assert(out@[k] == o1[k]);
                                    assert(notes(out@)[k] == notes(o1)[k]);
                                } else {
                                    assert(o1.len() <= k);
                                    let n = notes(out@)[k];
                                    assert(n matches Note::Lattice(c, nn, d) && nn == ns@ && d == pv
                                        && lattice_targets(sessions@, conns@, sid@, ns@).contains(c));
                                    if let Note::Lattice(c, nn, d) = n {
                                        assert(lattice_targets(sessions@, conns@, sid@, ns@).contains(c));
                                        assert(hearer_target(sessions@, conns@, subs@, pv, private@, ns@, c));
                                    }
                                }
                            }
                            assert forall|x: Seq<char>, c: u64|
                                #[trigger] sent0.contains(x)
                                    && #[trigger] lattice_targets(sessions@, conns@, x, ns@).contains(c)
                                    implies notes(out@).skip(start).contains(Note::<P>::Lattice(c, ns@, pv)) by {
                                assert(notes(o1).skip(start).contains(Note::<P>::Lattice(c, ns@, pv)));
                                let k = notes(o1).skip(start).index_of(Note::<P>::Lattice(c, ns@, pv));
                                assert(out@[start + k] == o1[start + k]);
                                assert(notes(out@).skip(start)[k] == notes(o1).skip(start)[k]);
                            }
                            assert forall|c: u64|
                                #[trigger] lattice_targets(sessions@, conns@, sid@, ns@).contains(c)
                                    implies notes(out@).skip(start).contains(Note::<P>::Lattice(c, ns@, pv)) by {
                                let k = notes(out@).skip(o1.len() as int).index_of(Note::<P>::Lattice(c, ns@, pv));
                                assert(notes(out@).skip(start)[o1.len() - start + k] == notes(out@).skip(o1.len() as int)[k]);
                            }
                        }
                        if found {
                            sent.insert(sid.clone());
                        }
                        proof {
                            let before = notes(o1).skip(start);
                            let batch = notes(out@).skip(o1.len() as int);
                            assert(notes(out@).skip(start) =~= before + batch) by {
                                assert forall|k: int| 0 <= k < o1.len() - start implies notes(out@).skip(start)[k]
                                    == before[k] by {
                                    assert(out@[start + k] == o1[start + k]);
                                }
                            }
                            assert forall|k: int| 0 <= k < batch.len() implies (#[trigger] batch[k] matches Note::Lattice(
                                c,
                                nn,
                                dd,
                            ) && nn == ns@ && dd == pv && lattice_targets(sessions@, conns@, sid@, ns@).contains(c)) by {
                                assert(batch[k] == notes(out@)[o1.len() + k]);
                            }
                            assert forall|k: int| 0 <= k < before.len() implies conns@.contains_key(
                                note_cid(#[trigger] before[k]),
                            ) && sent0.contains(conns@[note_cid(before[k])].session_id) by {
                                assert(before[k] == notes(o1)[start + k]);
                            }
                            lemma_batch_added(before, batch, sessions@, conns@, sid@, ns@, pv, sent0);
                            assert forall|k: int| start <= k < out@.len() implies conns@.contains_key(
                                note_cid(#[trigger] notes(out@)[k]),
                            ) && sent@.contains(conns@[note_cid(notes(out@)[k])].session_id) by {
                                if k < o1.len() {
                                    assert(notes(out@)[k] == before[k - start]);
                                } else {
                                    assert(notes(out@)[k] == batch[k - o1.len()]);
                                    assert(lattice_targets(sessions@, conns@, sid@, ns@).contains(
                                        note_cid(batch[k - o1.len()]),
                                    ));
                                    assert(sessions@.contains_key(sid@));
                                }
                            }
                        }
                    }
                    proof {
                        lemma_take_next(e, j as int);
                    }
                    j = j + 1;
                }
                proof {
                    assert forall|m: int, x: Seq<char>|
                        0 <= m < i + 1 && #[trigger] subscribers(subs@, rooms[m]).contains(x)
                            && !private@.contains_key(x) && sessions@.contains_key(x)
                            implies #[trigger] sent@.contains(x) by {
                        if m == i {
                            assert(sids@.contains(x));
                            let q = e.index_of(x);
                            assert(e[q] == x);
                        }
                    }
                }
            },
        }
        i = i + 1;
    }
    proof {
        assert forall|sid: Seq<char>, c: u64|
            shared_hearer(subs@, pv, private@, sid)
                && #[trigger] lattice_targets(sessions@, conns@, sid, ns@).contains(c)
                implies notes(out@).skip(start).contains(Note::<P>::Lattice(c, ns@, pv)) by {
            let r = choose|r: Seq<char>| pv.contains_key(r) && #[trigger] subscribers(subs@, r).contains(sid);
            assert(rooms.to_set().contains(r));
            let m = rooms.index_of(r);
            assert(rooms[m] == r);
            assert(sessions@.contains_key(sid));
            assert(sent@.contains(sid));
        }
        assert forall|k: int| start <= k < out@.len() implies conns@.contains_key(
            note_cid(#[trigger] notes(out@)[k]),
        ) && !private@.contains_key(conns@[note_cid(notes(out@)[k])].session_id) by {
            assert(sent@.contains(conns@[note_cid(notes(out@)[k])].session_id));
        }
    }
}

/// The rooms `names` of session `sid` in `nk`, or none.
pub open spec fn names_of(nk: Map<Seq<char>, Set<Seq<char>>>, sid: Seq<char>) -> Set<Seq<char>> {
    if nk.contains_key(sid) {
        nk[sid]
    } else {
        Set::empty()
    }
}

/// The data that session `sid` of `private` is sent: its rooms of
/// `private`, with the values of `pubv` laid over the rooms that it has
/// private data for in `lat`, then the shared values of `lat` laid over the
/// rooms `nk` names for it.
pub open spec fn personal_data(
    private: Map<Seq<char>, Map<Seq<char>, ValuesView>>,
    pubv: Map<Seq<char>, ValuesView>,
    lat: LatticeView,
    nk: Map<Seq<char>, Set<Seq<char>>>,
    sid: Seq<char>,
) -> Map<Seq<char>, ValuesView> {
    overlay_named(
        overlay_allowed(private[sid], pubv, session_or_empty(lat.private, sid)),
        names_of(nk, sid),
        lat.shared,
    )
}

/// Connection `c` is attached to `ns` for a session of `private` that is
/// sent `d`.
pub open spec fn private_target<P>(
    sessions: Map<Seq<char>, SessionView<P>>,
    conns: Map<u64, ConnView>,
    private: Map<Seq<char>, Map<Seq<char>, ValuesView>>,
    pubv: Map<Seq<char>, ValuesView>,
    lat: LatticeView,
    nk: Map<Seq<char>, Set<Seq<char>>>,
    ns: Seq<char>,
    c: u64,
    d: Map<Seq<char>, ValuesView>,
) -> bool {
    exists|sid: Seq<char>|
        private.contains_key(sid) && #[trigger] lattice_targets(sessions, conns, sid, ns).contains(c)
            && d == personal_data(private, pubv, lat, nk, sid)
}

/// Sends each session of `private` its data on namespace `ns`.
fn send_private<P>(
    out: &mut Vec<Outgoing<P>>,
    sessions: &KeyMap<String, Session<P>>,
    conns: &KeyMap<Cid, Connection>,
    private: StrMap<StrMap<Values>>,
    pubdata: &StrMap<Values>,
    lat: &Lattice,
    nk: &StrMap<StrSet>,
    ns: &String,
)
    requires
        sessions.wf(),
        conns.wf(),
        private.wf(),
        pubdata.wf(),
        lat.valid(),
        nk.wf(),
        live_owned(sessions@, conns@),
    ensures
        final(out)@.len() >= old(out)@.len(),
        distinct_cids(notes(final(out)@).skip(old(out)@.len() as int)),
        forall|k: int|
            old(out)@.len() <= k < final(out)@.len() ==> conns@.contains_key(
                note_cid(#[trigger] notes(final(out)@)[k]),
            ) && private@.contains_key(conns@[note_cid(notes(final(out)@)[k])].session_id),
        final(out)@.take(old(out)@.len() as int) == old(out)@,
        forall|k: int|
            old(out)@.len() <= k < final(out)@.len() ==> (#[trigger] notes(final(out)@)[k] matches Note::Lattice(
                c,
                n,
                d,
            ) && n == ns@ && private_target(sessions@, conns@, private@, pubdata@, lat@, nk@, ns@, c, d)),
        forall|sid: Seq<char>, c: u64|
            private@.contains_key(sid) && #[trigger] lattice_targets(sessions@, conns@, sid, ns@).contains(c)
                ==> notes(final(out)@).skip(old(out)@.len() as int).contains(
                Note::<P>::Lattice(c, ns@, personal_data(private@, pubdata@, lat@, nk@, sid)),
            ),
{
    let ghost o0 = out@;
    let ghost start = out@.len() as int;
    let ghost p0 = private@;
    let mut private = private;
    loop
        invariant
            sessions.wf(),
            conns.wf(),
            private.wf(),
            pubdata.wf(),
            lat.valid(),
            nk.wf(),
            private@.dom().subset_of(p0.dom()),
            forall|x: Seq<char>| #[trigger] private@.contains_key(x) ==> private@[x] == p0[x],
            out@.len() >= start,
            start == o0.len(),
            out@.take(start) == o0,
            live_owned(sessions@, conns@),
            distinct_cids(notes(out@).skip(start)),
            forall|k: int|
                start <= k < out@.len() ==> conns@.contains_key(note_cid(#[trigger] notes(out@)[k]))
                    && p0.contains_key(conns@[note_cid(notes(out@)[k])].session_id)
                    && !private@.contains_key(conns@[note_cid(notes(out@)[k])].session_id),
            forall|k: int|
                start <= k < out@.len() ==> (#[trigger] notes(out@)[k] matches Note::Lattice(c, n, d) && n == ns@
                    && private_target(sessions@, conns@, p0, pubdata@, lat@, nk@, ns@, c, d)),
            forall|sid: Seq<char>, c: u64|
                p0.contains_key(sid) && !private@.contains_key(sid)
                    && #[trigger] lattice_targets(sessions@, conns@, sid, ns@).contains(c)
                    ==> notes(out@).skip(start).contains(
                    Note::<P>::Lattice(c, ns@, personal_data(p0, pubdata@, lat@, nk@, sid)),
                ),
        ensures
            out@.len() >= start,
            out@.take(start) == o0,
            distinct_cids(notes(out@).skip(start)),
            forall|k: int|
                start <= k < out@.len() ==> conns@.contains_key(note_cid(#[trigger] notes(out@)[k]))
                    && p0.contains_key(conns@[note_cid(notes(out@)[k])].session_id),
            forall|k: int|
                start <= k < out@.len() ==> (#[trigger] notes(out@)[k] matches Note::Lattice(c, n, d) && n == ns@
                    && private_target(sessions@, conns@, p0, pubdata@, lat@, nk@, ns@, c, d)),
            forall|sid: Seq<char>, c: u64|
                p0.contains_key(sid) && #[trigger] lattice_targets(sessions@, conns@, sid, ns@).contains(c)
                    ==> notes(out@).skip(start).contains(
                    Note::<P>::Lattice(c, ns@, personal_data(p0, pubdata@, lat@, nk@, sid)),
                ),
        decreases private.keys().len(),
    {
        match private.pop() {
            None => {
                break;
            },
            Some((sid, rooms)) => {
                let ghost want = personal_data(p0, pubdata@, lat@, nk@, sid@);
                let ghost left = private@;
                let mut rooms = rooms;
                match lat.private.get(&sid) {
                    Some(allowed) => lay_allowed(&mut rooms, pubdata, allowed),
                    None => {
                        proof {
                            assert(rooms@ =~= overlay_allowed(p0[sid@], pubdata@, session_or_empty(lat@.private, sid@)));
                        }
                    },
                }
                match nk.get(&sid) {
                    Some(names) => lay_named(&mut rooms, names, &lat.shared),
                    None => {
                        proof {
                            let r = rooms@;
                            assert(r =~= overlay_named(r, names_of(nk@, sid@), lat@.shared));
                        }
                    },
                }
                let update = Arc::new(rooms);
                let ghost o1 = out@;
                send_lattice(out, sessions, conns, &sid, ns, &update);
                proof {
                    let done = p0.dom().difference(left.dom()).remove(sid@);
                    let before = notes(o1).skip(start);
                    let batch = notes(out@).skip(o1.len() as int);
                    assert(notes(out@).skip(start) =~= before + batch) by {
                        assert forall|k: int| 0 <= k < o1.len() - start implies notes(out@).skip(start)[k]
                            == before[k] by {
                            assert(out@[start + k] == o1[start + k]);
                        }
                    }
                    assert forall|k: int| 0 <= k < batch.len() implies (#[trigger] batch[k] matches Note::Lattice(
                        c,
                        nn,
                        dd,
                    ) && nn == ns@ && dd == (*update)@ && lattice_targets(sessions@, conns@, sid@, ns@).contains(c)) by {
                        assert(batch[k] == notes(out@)[o1.len() + k]);
                    }
                    assert forall|k: int| 0 <= k < before.len() implies conns@.contains_key(
                        note_cid(#[trigger] before[k]),
                    ) && done.contains(conns@[note_cid(before[k])].session_id) by {
                        assert(before[k] == notes(o1)[start + k]);
                        assert(!private@.contains_key(conns@[note_cid(before[k])].session_id));
                    }
                    lemma_batch_added(before, batch, sessions@, conns@, sid@, ns@, (*update)@, done);
                    assert forall|k: int| start <= k < out@.len() implies conns@.contains_key(
                        note_cid(#[trigger] notes(out@)[k]),
                    ) && p0.contains_key(conns@[note_cid(notes(out@)[k])].session_id)
                        && !private@.contains_key(conns@[note_cid(notes(out@)[k])].session_id) by {
                        if k < o1.len() {
                            assert(notes(out@)[k] == before[k - start]);
                        } else {
                            assert(notes(out@)[k] == batch[k - o1.len()]);
                        }
                    }
                    assert((*update)@ == want);
                    assert(out@.take(start) =~= o0) by {
                        assert(out@.take(o1.len() as int) == o1);
                        assert forall|k: int| 0 <= k < start implies out@.take(start)[k] == o0[k] by {
                            assert(out@[k] == o1[k]);
                        }
                    }
                    assert forall|k: int| start <= k < out@.len() implies (#[trigger] notes(out@)[k] matches Note::Lattice(c, n, d)
                        && n == ns@ && private_target(sessions@, conns@, p0, pubdata@, lat@, nk@, ns@, c, d)) by {
                        if k < o1.len() {
                            assert(out@[k] == o1[k]);
                            assert(notes(out@)[k] == notes(o1)[k]);
                        } else {
                            let n = notes(out@)[k];
                            if let Note::Lattice(c, nn, d) = n {
                                assert(lattice_targets(sessions@, conns@, sid@, ns@).contains(c));
                                assert(private_target(sessions@, conns@, p0, pubdata@, lat@, nk@, ns@, c, d));
                            }
                        }
                    }
                    assert forall|x: Seq<char>, c: u64|
                        p0.contains_key(x) && !private@.contains_key(x)
                            && #[trigger] lattice_targets(sessions@, conns@, x, ns@).contains(c)
                            implies notes(out@).skip(start).contains(
                            Note::<P>::Lattice(c, ns@, personal_data(p0, pubdata@, lat@, nk@, x)),
                        ) by {
                        let m = Note::<P>::Lattice(c, ns@, personal_data(p0, pubdata@, lat@, nk@, x));
                        if x == sid@ {
                            let k = notes(out@).skip(o1.len() as int).index_of(m);
                            assert(notes(out@).skip(start)[o1.len() - start + k] == notes(out@).skip(o1.len() as int)[k]);
                        } else {
                            assert(notes(o1).skip(start).contains(m));
                            let k = notes(o1).skip(start).index_of(m);
                            assert(out@[start + k] == o1[start + k]);
                            assert(notes(out@).skip(start)[k] == notes(o1).skip(start)[k]);
                        }
                    }
                }
            },
        }
    }
}

/// The lattice of namespace `ns`, or an empty one.
pub open spec fn lattice_or_new(m: Map<Seq<char>, LatticeView>, ns: Seq<char>) -> LatticeView {
    if m.contains_key(ns) {
        m[ns]
    } else {
        LatticeView { shared: Map::empty(), private: Map::empty(), subscriptions: Map::empty() }
    }
}

/// Lattice `l` after delta `d`, with each session of `d` subscribed to its
/// rooms.
pub open spec fn lattice_updated(l: LatticeView, d: DeltaView) -> LatticeView {
    LatticeView {
        shared: rooms_merge(l.shared, d.shared),
        private: private_merge(l.private, d.private),
        subscriptions: subs_after(l.subscriptions, d.private),
    }
}

/// The data that session `sid`, which has private data in `d`, is sent
/// when `d` updates `l`: its rooms that changed, with the shared values
/// that changed laid over its rooms, and the shared values of the rooms it
/// newly subscribed to.
pub open spec fn personal_update(l: LatticeView, d: DeltaView, sid: Seq<char>) -> Map<Seq<char>, ValuesView> {
    let l1 = lattice_updated(l, d);
    let f = delta_fresh(l, d);
    overlay_named(
        overlay_allowed(f.private[sid], f.shared, session_or_empty(l1.private, sid)),
        new_rooms(l.subscriptions, d.private, sid),
        l1.shared,
    )
}

/// Session `sid` hears of update `d` of `l`.
pub open spec fn update_receiver(l: LatticeView, d: DeltaView, sid: Seq<char>) -> bool {
    d.private.contains_key(sid) || shared_hearer(
        lattice_updated(l, d).subscriptions,
        delta_fresh(l, d).shared,
        d.private,
        sid,
    )
}

/// What connection `c` of session `sid` is sent on namespace `ns` when `d`
/// updates `l`.
pub open spec fn update_note<P>(l: LatticeView, d: DeltaView, ns: Seq<char>, sid: Seq<char>, c: u64) -> Note<P> {
    if d.private.contains_key(sid) {
        Note::Lattice(c, ns, personal_update(l, d, sid))
    } else {
        Note::Lattice(c, ns, delta_fresh(l, d).shared)
    }
}

/// Note `n` is what a connection of a session that hears of update `d` of
/// `l` is sent.
pub open spec fn update_delivered<P>(
    sessions: Map<Seq<char>, SessionView<P>>,
    conns: Map<u64, ConnView>,
    l: LatticeView,
    d: DeltaView,
    ns: Seq<char>,
    n: Note<P>,
) -> bool {
    exists|sid: Seq<char>, c: u64|
        update_receiver(l, d, sid) && #[trigger] lattice_targets(sessions, conns, sid, ns).contains(c)
            && n == update_note::<P>(l, d, ns, sid, c)
}

/// Note `n` goes to a live connection whose own session hears of update
/// `d` of `l`, and is what that session's connections are sent.
pub open spec fn own_update<P>(
    sessions: Map<Seq<char>, SessionView<P>>,
    conns: Map<u64, ConnView>,
    l: LatticeView,
    d: DeltaView,
    ns: Seq<char>,
    n: Note<P>,
) -> bool {
    let c = note_cid(n);
    &&& conns.contains_key(c)
    &&& update_receiver(l, d, conns[c].session_id)
    &&& lattice_targets(sessions, conns, conns[c].session_id, ns).contains(c)
    &&& n == update_note::<P>(l, d, ns, conns[c].session_id, c)
}

/// Whether pending connection `cid` can join its session: each lattice
/// namespace it is attached to exists.
pub open spec fn can_join<P>(p: PoolView<P>, cid: u64) -> bool {
    p.pending.contains_key(cid) && p.pending[cid].lattices.subset_of(p.lattices.dom())
}

/// The pool `post` is `pre` with connection `conn_id` added as pending.
pub open spec fn added<P>(
    pre: PoolView<P>,
    post: PoolView<P>,
    conn_id: Cid,
) -> bool {
    &&& post.pending == pre.pending.insert(
        conn_id@,
        PendingView {
            cid: conn_id@,
            topics: Set::empty(),
            lattices: Set::empty(),
            buffer: Seq::empty(),
        },
    )
    &&& post.conns == pre.conns
    &&& post.topics == pre.topics
    &&& post.sessions == pre.sessions
    &&& post.lattices == pre.lattices
    &&& post.timeout == pre.timeout
}

/// The pool `post` is `pre` with connection `cid` subscribed to `topic`.
pub open spec fn subscribed<P>(
    pre: PoolView<P>,
    post: PoolView<P>,
    cid: Cid,
    topic: String,
) -> bool {
    &&& post.sessions == pre.sessions
    &&& post.lattices == pre.lattices
    &&& post.timeout == pre.timeout
    &&& pre.conns.contains_key(cid@) ==> {
        &&& post.conns == pre.conns.insert(
            cid@,
            conn_topics(pre.conns[cid@], pre.conns[cid@].topics.insert(topic@)),
        )
        &&& post.pending == pre.pending
        &&& post.topics == add_sub(
            pre.topics,
            topic@,
            cid@,
            Subscription::Session,
        )
    }
    &&& pre.pending.contains_key(cid@) ==> {
        &&& post.pending == pre.pending.insert(
            cid@,
            pending_topics(
                pre.pending[cid@],
                pre.pending[cid@].topics.insert(topic@),
            ),
        )
        &&& post.conns == pre.conns
        &&& post.topics == add_sub(
            pre.topics,
            topic@,
            cid@,
            Subscription::Pending,
        )
    }
    &&& !pre.conns.contains_key(cid@) && !pre.pending.contains_key(cid@) ==> {
        &&& post.pending == pre.pending
        &&& post.conns == pre.conns
        &&& post.topics == pre.topics
    }
}

/// The pool `post` is `pre` with connection `cid` unsubscribed from `topic`.
pub open spec fn unsubscribed<P>(
    pre: PoolView<P>,
    post: PoolView<P>,
    cid: Cid,
    topic: String,
) -> bool {
    &&& post.sessions == pre.sessions
    &&& post.lattices == pre.lattices
    &&& post.timeout == pre.timeout
    &&& post.topics == drop_sub(pre.topics, topic@, cid@)
    &&& sub_of(pre.topics, topic@, cid@) == Some(Subscription::Pending) ==> {
        &&& post.pending == pre.pending.insert(
            cid@,
            pending_topics(
                pre.pending[cid@],
                pre.pending[cid@].topics.remove(topic@),
            ),
        )
        &&& post.conns == pre.conns
    }
    &&& sub_of(pre.topics, topic@, cid@) == Some(Subscription::Session) ==> {
        &&& post.conns == pre.conns.insert(
            cid@,
            conn_topics(pre.conns[cid@], pre.conns[cid@].topics.remove(topic@)),
        )
        &&& post.pending == pre.pending
    }
    &&& sub_of(pre.topics, topic@, cid@) is None ==> {
        &&& post.pending == pre.pending
        &&& post.conns == pre.conns
    }
}

/// The pool `post` and the messages `n` are what publishing `data` to `topic`
/// in `pre` gives.
pub open spec fn published<P>(
    pre: PoolView<P>,
    post: PoolView<P>,
    topic: String,
    data: Arc<P>,
    n: Seq<Note<P>>,
) -> bool {
    &&& post.sessions == pre.sessions
    &&& post.lattices == pre.lattices
    &&& post.timeout == pre.timeout
    &&& post.conns == pre.conns
    &&& post.topics == pre.topics
    &&& post.pending == buffer_for(
        pre.pending,
        subs_of(pre.topics, topic@),
        (topic@, *data),
    )
    &&& n.no_duplicates()
    &&& forall|i: int|
        0 <= i < n.len() ==> exists|c: u64|
            sub_of(pre.topics, topic@, c) == Some(Subscription::Session)
                && #[trigger] n[i] == Note::Publish(c, topic@, *data)
    &&& forall|c: u64|
        sub_of(pre.topics, topic@, c) == Some(Subscription::Session)
            ==> #[trigger] n.contains(Note::Publish(c, topic@, *data))
}

/// The pool `post` and the messages `n` are what attaching connection `cid`
/// to lattice `namespace` in `pre` gives.
pub open spec fn attached_to_lattice<P>(
    pre: PoolView<P>,
    post: PoolView<P>,
    cid: Cid,
    namespace: String,
    n: Seq<Note<P>>,
) -> bool {
    &&& post.topics == pre.topics
    &&& post.lattices == pre.lattices
    &&& post.timeout == pre.timeout
    &&& pre.conns.contains_key(cid@) ==> {
        let c = pre.conns[cid@];
        let sess = pre.sessions[c.session_id];
        &&& post.conns == pre.conns.insert(
            cid@,
            conn_lattices(c, c.lattices.insert(namespace@)),
        )
        &&& post.pending == pre.pending
        &&& post.sessions == pre.sessions.insert(
            c.session_id,
            session_lattices(sess, attach_to(sess.lattices, namespace@, cid@)),
        )
        &&& n == if pre.lattices.contains_key(namespace@) {
            seq![
                Note::<P>::Lattice(
                    cid@,
                    namespace@,
                    lattice_from_view(pre.lattices[namespace@], c.session_id),
                ),
            ]
        } else {
            Seq::<Note<P>>::empty()
        }
    }
    &&& pre.pending.contains_key(cid@) ==> {
        &&& post.pending == pre.pending.insert(
            cid@,
            pending_lattices(
                pre.pending[cid@],
                pre.pending[cid@].lattices.insert(namespace@),
            ),
        )
        &&& post.conns == pre.conns
        &&& post.sessions == pre.sessions
        &&& n.len() == 0
    }
    &&& !pre.conns.contains_key(cid@) && !pre.pending.contains_key(cid@) ==> {
        &&& post.pending == pre.pending
        &&& post.conns == pre.conns
        &&& post.sessions == pre.sessions
        &&& n.len() == 0
    }
}

/// The pool `post` is `pre` with connection `cid` detached from lattice
/// `namespace`.
pub open spec fn detached_from_lattice<P>(
    pre: PoolView<P>,
    post: PoolView<P>,
    cid: Cid,
    namespace: String,
) -> bool {
    &&& post.topics == pre.topics
    &&& post.lattices == pre.lattices
    &&& post.timeout == pre.timeout
    &&& pre.conns.contains_key(cid@) ==> {
        let c = pre.conns[cid@];
        let sess = pre.sessions[c.session_id];
        &&& post.conns == pre.conns.insert(
            cid@,
            conn_lattices(c, c.lattices.remove(namespace@)),
        )
        &&& post.pending == pre.pending
        &&& post.sessions == pre.sessions.insert(
            c.session_id,
            session_lattices(sess, detach_from(sess.lattices, namespace@, cid@)),
        )
    }
    &&& pre.pending.contains_key(cid@) ==> {
        &&& post.pending == pre.pending.insert(
            cid@,
            pending_lattices(
                pre.pending[cid@],
                pre.pending[cid@].lattices.remove(namespace@),
            ),
        )
        &&& post.conns == pre.conns
        &&& post.sessions == pre.sessions
    }
    &&& !pre.conns.contains_key(cid@) && !pre.pending.contains_key(cid@) ==> {
        &&& post.pending == pre.pending
        &&& post.conns == pre.conns
        &&& post.sessions == pre.sessions
    }
}

/// The pool `post` is `pre` with activity of session `sess_id` recorded until
/// `activity_ts`.
pub open spec fn activity_updated<P>(
    pre: PoolView<P>,
    post: PoolView<P>,
    sess_id: String,
    activity_ts: u64,
) -> bool {
    &&& post.pending == pre.pending
    &&& post.conns == pre.conns
    &&& post.topics == pre.topics
    &&& post.lattices == pre.lattices
    &&& post.timeout == pre.timeout
    &&& post.sessions == pre.sessions.insert(
        sess_id@,
        session_until(
            session_or_blank(pre.sessions, sess_id@),
            Some(
                activity_until(
                    session_or_blank(pre.sessions, sess_id@).active_until,
                    activity_ts,
                ),
            ),
        ),
    )
}

/// The pool `post`, the next deadline `next` and the messages `n` are what
/// the cleanup of `pre` at `now` gives.
pub open spec fn cleaned_up<P>(
    pre: PoolView<P>,
    post: PoolView<P>,
    now: u64,
    next: Option<u64>,
    n: Seq<Note<P>>,
) -> bool {
    &&& post.pending == pre.pending
    &&& post.conns == pre.conns
    &&& post.topics == pre.topics
    &&& post.lattices == pre.lattices
    &&& post.timeout == pre.timeout
    &&& post.sessions == after_cleanup(pre.sessions, now)
    &&& n.no_duplicates()
    &&& forall|i: int|
        0 <= i < n.len() ==> {
            let sid = noted_session(#[trigger] n[i]);
            &&& pre.sessions.contains_key(sid)
            &&& expired(pre.sessions[sid], now)
            &&& n[i] == inactive_note(sid, pre.sessions[sid])
        }
    &&& forall|x: Seq<char>|
        #[trigger] pre.sessions.contains_key(x) && expired(pre.sessions[x], now)
            ==> n.contains(inactive_note(x, pre.sessions[x]))
    &&& forall|i: int, j: int|
        0 <= i < j < n.len() ==> until_of(pre.sessions[noted_session(#[trigger] n[i])])
            <= until_of(pre.sessions[noted_session(#[trigger] n[j])])
    &&& next matches Some(d) ==> {
        &&& exists|x: Seq<char>|
            #[trigger] post.sessions.contains_key(x) && post.sessions[x].active_until == Some(d)
        &&& forall|x: Seq<char>|
            #[trigger] post.sessions.contains_key(x) && post.sessions[x].active_until is Some
                ==> d <= until_of(post.sessions[x])
    }
    &&& next is None ==> forall|x: Seq<char>|
        #[trigger] post.sessions.contains_key(x) ==> post.sessions[x].active_until is None
}

/// The pool `post` is `pre` without connection `conn_id`.
pub open spec fn disconnected<P>(
    pre: PoolView<P>,
    post: PoolView<P>,
    conn_id: Cid,
) -> bool {
    &&& post.lattices == pre.lattices
    &&& post.timeout == pre.timeout
    &&& pre.pending.contains_key(conn_id@) ==> {
        &&& post.pending == pre.pending.remove(conn_id@)
        &&& post.conns == pre.conns
        &&& post.sessions == pre.sessions
        &&& post.topics == drop_subs(
            pre.topics,
            pre.pending[conn_id@].topics,
            conn_id@,
        )
    }
    &&& pre.conns.contains_key(conn_id@) ==> {
        &&& post.pending == pre.pending
        &&& post.conns == pre.conns.remove(conn_id@)
        &&& post.sessions == sessions_without(
            pre.sessions,
            pre.conns[conn_id@],
        )
        &&& post.topics == drop_subs(
            pre.topics,
            pre.conns[conn_id@].topics,
            conn_id@,
        )
    }
}

/// The pool `post` and the messages `n` are what associating connection
/// `conn_id` with session `session_id` at `timestamp` in `pre` gives.
pub open spec fn associated<P>(
    pre: PoolView<P>,
    post: PoolView<P>,
    conn_id: Cid,
    session_id: String,
    timestamp: u64,
    metadata: Arc<P>,
    n: Seq<Note<P>>,
) -> bool {
    &&& post.lattices == pre.lattices
    &&& post.timeout == pre.timeout
    &&& !pre.pending.contains_key(conn_id@) ==> {
        &&& post.pending == pre.pending
        &&& post.conns == pre.conns
        &&& post.sessions == pre.sessions
        &&& post.topics == pre.topics
        &&& n.len() == 0
    }
    &&& pre.pending.contains_key(conn_id@) ==> {
        let p = pre.pending[conn_id@];
        &&& post.pending == pre.pending.remove(conn_id@)
        &&& n.take(p.buffer.len() as int) == buffer_notes(conn_id@, p.buffer)
    }
    &&& pre.pending.contains_key(conn_id@) && !can_join(pre, conn_id@) ==> {
        let p = pre.pending[conn_id@];
        &&& post.conns == pre.conns
        &&& post.sessions == pre.sessions
        &&& post.topics == drop_subs(pre.topics, p.topics, conn_id@)
        &&& n.len() == p.buffer.len()
    }
    &&& can_join(pre, conn_id@) ==> {
        let p = pre.pending[conn_id@];
                        let b = p.buffer.len();
        &&& post.conns == pre.conns.insert(
            conn_id@,
            ConnView {
                cid: conn_id@,
                session_id: session_id@,
                topics: p.topics,
                lattices: p.lattices,
            },
        )
        &&& post.topics == promote_subs(pre.topics, p.topics, conn_id@)
        &&& post.sessions == pre.sessions.insert(
            session_id@,
            session_joined(
                pre.sessions,
                session_id@,
                p,
                timestamp,
                pre.timeout,
                *metadata,
            ),
        )
        &&& n.len() == b + p.lattices.len()
        &&& n.skip(b as int).no_duplicates()
        &&& forall|i: int|
            b <= i < n.len() ==> (#[trigger] n[i] matches Note::Lattice(c, ns, data)
                && c == conn_id@ && p.lattices.contains(ns)
                && data == lattice_from_view(pre.lattices[ns], session_id@))
        &&& forall|ns: Seq<char>|
            #[trigger] p.lattices.contains(ns) ==> n.contains(
                Note::Lattice(
                    conn_id@,
                    ns,
                    lattice_from_view(pre.lattices[ns], session_id@),
                ),
            )
    }
}

/// The pool `post` and the messages `n` are what updating lattice
/// `namespace` of `pre` with `delta` gives.
pub open spec fn lattice_updated_by<P>(
    pre: PoolView<P>,
    post: PoolView<P>,
    namespace: String,
    delta: Delta,
    n: Seq<Note<P>>,
) -> bool {
    &&& post.pending == pre.pending
    &&& post.conns == pre.conns
    &&& post.topics == pre.topics
    &&& post.sessions == pre.sessions
    &&& post.timeout == pre.timeout
    &&& post.lattices == pre.lattices.insert(
        namespace@,
        lattice_updated(lattice_or_new(pre.lattices, namespace@), delta@),
    )
    &&& n.no_duplicates()
    &&& distinct_cids(n)
    &&& forall|k: int|
        0 <= k < n.len() ==> own_update(
            pre.sessions,
            pre.conns,
            lattice_or_new(pre.lattices, namespace@),
            delta@,
            namespace@,
            #[trigger] n[k],
        )
    &&& forall|k: int|
        0 <= k < n.len() ==> update_delivered(
            pre.sessions,
            pre.conns,
            lattice_or_new(pre.lattices, namespace@),
            delta@,
            namespace@,
            #[trigger] n[k],
        )
    &&& forall|sid: Seq<char>, c: u64|
        update_receiver(lattice_or_new(pre.lattices, namespace@), delta@, sid)
            && #[trigger] lattice_targets(pre.sessions, pre.conns, sid, namespace@).contains(c)
            ==> n.contains(
            update_note::<P>(lattice_or_new(pre.lattices, namespace@), delta@, namespace@, sid, c),
        )
}

/// The messages `n` are what stopping pool `pre` gives: each connection,
/// pending or associated, is told once to close.
pub open spec fn stopped<P>(pre: PoolView<P>, n: Seq<Note<P>>) -> bool {
    &&& n.no_duplicates()
    &&& forall|i: int|
        0 <= i < n.len() ==> (#[trigger] n[i] matches Note::Stop(c, r)
            && (pre.pending.contains_key(c) || pre.conns.contains_key(c))
            && r == CloseReason::PoolStopped)
    &&& forall|c: u64|
        pre.pending.contains_key(c) || pre.conns.contains_key(c)
            ==> #[trigger] n.contains(Note::<P>::Stop(c, CloseReason::PoolStopped))
}

/// A pool without connections, topics, sessions or lattices.
pub open spec fn empty_pool<P>(timeout: u64) -> PoolView<P> {
    PoolView {
        pending: Map::empty(),
        conns: Map::empty(),
        topics: Map::empty(),
        sessions: Map::empty(),
        lattices: Map::empty(),
        timeout: timeout,
    }
}

/// A session pool.
pub struct Pool<P> {
    name: String,
    sessions: KeyMap<String, Session<P>>,
    pending_connections: KeyMap<Cid, NewConnection<P>>,
    connections: KeyMap<Cid, Connection>,
    topics: KeyMap<String, KeyMap<Cid, Subscription>>,
    lattices: KeyMap<String, Lattice>,
    new_connection_timeout: u64,
}

/// A session pool by its parts.
pub struct PoolView<P> {
    /// The connections that wait for their session.
    pub pending: Map<u64, PendingView<P>>,
    /// The connections that belong to a session.
    pub conns: Map<u64, ConnView>,
    /// For each topic, the subscribed connections.
    pub topics: Map<Seq<char>, Map<u64, Subscription>>,
    /// The sessions, active and inactive.
    pub sessions: Map<Seq<char>, SessionView<P>>,
    /// The lattice namespaces.
    pub lattices: Map<Seq<char>, LatticeView>,
    /// How long a new session stays active, in milliseconds.
    pub timeout: u64,
}

impl<P> View for Pool<P> {
    type V = PoolView<P>;

    closed spec fn view(&self) -> PoolView<P> {
        PoolView {
            pending: self.pending_connections@,
            conns: self.connections@,
            topics: self.topics@,
            sessions: self.sessions@,
            lattices: self.lattices@,
            timeout: self.new_connection_timeout,
        }
    }
}

impl<P> Valid for Pool<P> {
    open spec fn valid(&self) -> bool {
        self.wf()
    }
}

impl<P> Pool<P> {
    /// The name of the pool.
    pub closed spec fn name_view(&self) -> Seq<char> {
        self.name@
    }

    /// The connections that wait for their session.
    pub open spec fn pending(&self) -> Map<u64, PendingView<P>> {
        self@.pending
    }

    /// The connections that belong to a session.
    pub open spec fn conns(&self) -> Map<u64, ConnView> {
        self@.conns
    }

    /// For each topic, the subscribed connections.
    pub open spec fn topic_subs(&self) -> Map<Seq<char>, Map<u64, Subscription>> {
        self@.topics
    }

    /// The sessions, active and inactive.
    pub open spec fn sessions(&self) -> Map<Seq<char>, SessionView<P>> {
        self@.sessions
    }

    /// The lattice namespaces.
    pub open spec fn lattices(&self) -> Map<Seq<char>, LatticeView> {
        self@.lattices
    }

    /// How long a new session stays active, in milliseconds.
    pub open spec fn timeout(&self) -> u64 {
        self@.timeout
    }

    /// The pool's parts are consistent with each other.
    pub closed spec fn wf(&self) -> bool {
        &&& self.sessions.wf()
        &&& self.pending_connections.wf()
        &&& self.connections.wf()
        &&& self.topics.wf()
        &&& self.lattices.wf()
        &&& self.inv()
    }

    /// A well-formed pool is consistent.
    pub proof fn lemma_inv(&self)
        requires
            self.wf(),
        ensures
            self.inv(),
    {
    }

    /// The consistency of the pool, over its views.
    pub open spec fn inv(&self) -> bool {
        let pending = self.pending();
        let conns = self.conns();
        &&& forall|c: u64| #[trigger] pending.contains_key(c) ==> !conns.contains_key(c)
        &&& forall|c: u64| #[trigger] pending.contains_key(c) ==> pending[c].cid == c
        &&& forall|c: u64| #[trigger] conns.contains_key(c) ==> conns[c].cid == c
        &&& subscriptions_known(self.topic_subs(), pending, conns)
        &&& topics_subscribed(self.topic_subs(), pending, conns)
        &&& sessions_agree(self.sessions(), conns)
        &&& attachments_owned(self.sessions(), pending, conns)
    }

    /// Whether the pool can take `action` at time `ts`: a new connection's
    /// id is fresh (no session lists it either), a connection that goes is known, a delta is well
    /// formed, and a joining session's deadline fits in 64 bits.
    pub fn allows(&self, ts: u64, action: &Action<P>) -> (r: bool)
        requires
            self.wf(),
        ensures
            r == step_allowed(self@, ts, *action),
    {
        match action {
            Action::NewConnection { conn_id } => !self.pending_connections.contains_key(conn_id)
                && !self.connections.contains_key(conn_id) && !attached_anywhere(&self.sessions, conn_id),
            Action::Associate { conn_id, .. } => {
                let joins = match self.pending_connections.get(conn_id) {
                    Some(c) => all_known(&self.lattices, &c.lattices),
                    None => false,
                };
                !joins || ts <= u64::MAX - self.new_connection_timeout
            },
            Action::Disconnect { conn_id } => self.pending_connections.contains_key(conn_id)
                || self.connections.contains_key(conn_id),
            Action::Lattice { delta, .. } => delta.is_valid(),
            _ => true,
        }
    }

    /// An empty pool.
    pub fn new(name: String, new_connection_timeout: u64) -> (r: Pool<P>)
        ensures
            r.wf(),
            r.name_view() == name@,
            r.timeout() == new_connection_timeout,
            r.pending() == Map::<u64, PendingView<P>>::empty(),
            r.conns() == Map::<u64, ConnView>::empty(),
            r.topic_subs() == Map::<Seq<char>, Map<u64, Subscription>>::empty(),
            r.sessions() == Map::<Seq<char>, SessionView<P>>::empty(),
            r.lattices() == Map::<Seq<char>, LatticeView>::empty(),
            r@ == empty_pool::<P>(new_connection_timeout),
    {
        Pool {
            name,
            sessions: KeyMap::new(),
            pending_connections: KeyMap::new(),
            connections: KeyMap::new(),
            topics: KeyMap::new(),
            lattices: KeyMap::new(),
            new_connection_timeout,
        }
    }

    /// Registers a new connection, pending until its session is known.
    pub fn add_connection(&mut self, conn_id: Cid)
        requires
            old(self).wf(),
            !old(self).pending().contains_key(conn_id@),
            !old(self).conns().contains_key(conn_id@),
            unattached(old(self).sessions(), conn_id@),
        ensures
            final(self).wf(),
            added(old(self)@, final(self)@, conn_id),

    {
        let conn = NewConnection {
            cid: conn_id,
            topics: KeySet::new(),
            lattices: KeySet::new(),
            message_buffer: Vec::new(),
        };
        proof {
            assert(buffer_view(conn.message_buffer@) =~= Seq::<(Seq<char>, P)>::empty());
        }
        self.pending_connections.insert(conn_id, conn);
    }

    /// Subscribes connection `cid` to `topic`; a connection that is not
    /// associated yet gets the topic's messages once it is.
    pub fn subscribe(&mut self, cid: Cid, topic: String)
        requires
            old(self).wf(),
        ensures
            final(self).wf(),
            subscribed(old(self)@, final(self)@, cid, topic),

    {
        match self.connections.remove(&cid) {
            Some(mut conn) => {
                conn.topics.insert(topic.clone());
                self.connections.insert(cid, conn);
                add_subscription(&mut self.topics, topic, cid, Subscription::Session);
                proof {
                    assert(self.conns() =~= old(self).conns().insert(
                        cid@,
                        conn_topics(old(self).conns()[cid@], old(self).conns()[cid@].topics.insert(topic@)),
                    ));
                }
            },
            None => {
                match self.pending_connections.remove(&cid) {
                    Some(mut conn) => {
                        conn.topics.insert(topic.clone());
                        self.pending_connections.insert(cid, conn);
                        add_subscription(&mut self.topics, topic, cid, Subscription::Pending);
                        proof {
                            assert(self.pending() =~= old(self).pending().insert(
                                cid@,
                                pending_topics(
                                    old(self).pending()[cid@],
                                    old(self).pending()[cid@].topics.insert(topic@),
                                ),
                            ));
                        }
                    },
                    None => {
                        proof {
                            assert(self.pending() =~= old(self).pending());
                        }
                    },
                }
                proof {
                    assert(self.conns() =~= old(self).conns());
                }
            },
        }
    }

    /// Unsubscribes connection `cid` from `topic`.
    pub fn unsubscribe(&mut self, cid: Cid, topic: String)
        requires
            old(self).wf(),
        ensures
            final(self).wf(),
            unsubscribed(old(self)@, final(self)@, cid, topic),

    {
        match unsubscribe_topic(&mut self.topics, &topic, cid) {
            Some(Subscription::Pending) => {
                let mut conn = self.pending_connections.remove(&cid).unwrap();
                conn.topics.remove(&topic);
                self.pending_connections.insert(cid, conn);
                proof {
                    assert(self.pending() =~= old(self).pending().insert(
                        cid@,
                        pending_topics(
                            old(self).pending()[cid@],
                            old(self).pending()[cid@].topics.remove(topic@),
                        ),
                    ));
                }
            },
            Some(Subscription::Session) => {
                let mut conn = self.connections.remove(&cid).unwrap();
                conn.topics.remove(&topic);
                self.connections.insert(cid, conn);
                proof {
                    assert(self.conns() =~= old(self).conns().insert(
                        cid@,
                        conn_topics(old(self).conns()[cid@], old(self).conns()[cid@].topics.remove(topic@)),
                    ));
                }
            },
            None => {},
        }
        proof {
            let t0 = old(self).topic_subs();
            let t1 = self.topic_subs();
            let p1 = self.pending();
            let c1 = self.conns();
            assert forall|t: Seq<char>, c: u64|
                #![trigger t1[t][c]]
                t1.contains_key(t) && t1[t].contains_key(c) implies {
                &&& t1[t][c] == Subscription::Pending ==> p1.contains_key(c) && p1[c].topics.contains(t)
                &&& t1[t][c] == Subscription::Session ==> c1.contains_key(c) && c1[c].topics.contains(t)
            } by {
                assert(t0.contains_key(t) && t0[t].contains_key(c) && t0[t][c] == t1[t][c]);
            }
            assert forall|c: u64, t: Seq<char>|
                #![trigger p1[c].topics.contains(t)]
                p1.contains_key(c) && p1[c].topics.contains(t) implies t1.contains_key(t)
                && t1[t].contains_key(c) && t1[t][c] == Subscription::Pending by {
                assert(old(self).pending()[c].topics.contains(t));
                assert(t0[t][c] == Subscription::Pending);
                if t == topic@ {
                    assert(t0[t].remove(cid@).contains_key(c));
                }
            }
            assert forall|c: u64, t: Seq<char>|
                #![trigger c1[c].topics.contains(t)]
                c1.contains_key(c) && c1[c].topics.contains(t) implies t1.contains_key(t)
                && t1[t].contains_key(c) && t1[t][c] == Subscription::Session by {
                assert(old(self).conns()[c].topics.contains(t));
                assert(t0[t][c] == Subscription::Session);
                if t == topic@ {
                    assert(t0[t].remove(cid@).contains_key(c));
                }
            }
        }
    }

    /// Publishes `data` to `topic`: each associated subscriber gets it now,
    /// each pending one once it is associated.
    pub fn publish(&mut self, topic: String, data: Arc<P>) -> (out: Vec<Outgoing<P>>)
        requires
            old(self).wf(),
        ensures
            final(self).wf(),
            published(old(self)@, final(self)@, topic, data, notes(out@)),

    {
        let mut out: Vec<Outgoing<P>> = Vec::new();
        let ghost p0 = self.pending();
        let ghost t0 = self.topic_subs();
        match self.topics.get(&topic) {
            None => {
                proof {
                    assert(self.pending() =~= buffer_for(p0, subs_of(t0, topic@), (topic@, *data)));
                }
            },
            Some(subs) => {
                let ghost keys = subs.keys();
                proof {
                    subs.lemma_wf();
                    assert(self.pending() =~= buffer_for(p0, subs@.restrict(keys.take(0).to_set()), (topic@, *data)));
                }
                let mut i: usize = 0;
                while i < subs.len()
                    invariant
                        self.wf(),
                        subs.wf(),
                        subs@ == t0[topic@],
                        t0.contains_key(topic@),
                        keys == subs.keys(),
                        keys.no_duplicates(),
                        subs@.dom() == keys.to_set(),
                        i <= keys.len(),
                        self.topic_subs() == t0,
                        self.conns() == old(self).conns(),
                        self.sessions() == old(self).sessions(),
                        self.lattices() == old(self).lattices(),
                        self.timeout() == old(self).timeout(),
                        self.pending().dom() == p0.dom(),
                        self.pending() == buffer_for(p0, subs@.restrict(keys.take(i as int).to_set()), (topic@, *data)),
                        notes(out@).no_duplicates(),
                        forall|j: int|
                            0 <= j < out@.len() ==> exists|k: int|
                                0 <= k < i && subs@[keys[k]] == Subscription::Session
                                    && #[trigger] notes(out@)[j] == Note::Publish(keys[k], topic@, *data),
                        forall|k: int|
                            0 <= k < i && subs@[keys[k]] == Subscription::Session
                                ==> #[trigger] notes(out@).contains(Note::Publish(keys[k], topic@, *data)),
                    decreases keys.len() - i,
                {
                    let c = *subs.key_at(i);
                    let typ = *subs.value_at(i);
                    let ghost before = self.pending();
                    let ghost out0 = notes(out@);
                    proof {
                        assert(keys.take(i + 1) =~= keys.take(i as int).push(c@));
                        keys.take(i as int).lemma_push_to_set_commute(c@);
                        assert(subs@[c@] == typ);
                    }
                    match typ {
                        Subscription::Pending => {
                            proof {
                                assert(self.topic_subs()[topic@][c@] == Subscription::Pending);
                            }
                            let mut conn = self.pending_connections.remove(&c).unwrap();
                            conn.message_buffer.push((topic.clone(), share(&data)));
                            proof {
                                assert(buffer_view(conn.message_buffer@) =~= before[c@].buffer.push((topic@, *data)));
                            }
                            self.pending_connections.insert(c, conn);
                            proof {
                                assert(self.pending() =~= buffer_for(
                                    p0,
                                    subs@.restrict(keys.take(i + 1).to_set()),
                                    (topic@, *data),
                                ));
                            }
                        },
                        Subscription::Session => {
                            out.push(
                                Outgoing::ToConnection(
                                    c,
                                    ConnectionMessage::Publish(topic.clone(), share(&data)),
                                ),
                            );
                            proof {
                                assert(notes(out@) =~= out0.push(Note::Publish(c@, topic@, *data)));
                                assert(!out0.contains(Note::Publish(c@, topic@, *data))) by {
                                    if out0.contains(Note::Publish(c@, topic@, *data)) {
                                        let j = out0.index_of(Note::Publish(c@, topic@, *data));
                                        let k = choose|k: int|
                                            0 <= k < i && subs@[keys[k]] == Subscription::Session
                                                && #[trigger] out0[j] == Note::Publish(keys[k], topic@, *data);
                                        assert(keys[k] == keys[i as int]);
                                    }
                                }
                                assert(self.pending() =~= buffer_for(
                                    p0,
                                    subs@.restrict(keys.take(i + 1).to_set()),
                                    (topic@, *data),
                                ));
                                assert forall|j: int|
                                    0 <= j < out@.len() implies exists|k: int|
                                        0 <= k < i + 1 && subs@[keys[k]] == Subscription::Session
                                            && #[trigger] notes(out@)[j] == Note::Publish(keys[k], topic@, *data) by {
                                    if j < out0.len() {
                                        assert(notes(out@)[j] == out0[j]);
                                    } else {
                                        assert(notes(out@)[j] == Note::Publish(keys[i as int], topic@, *data));
                                    }
                                }
                                assert forall|k: int|
                                    0 <= k < i + 1 && subs@[keys[k]] == Subscription::Session
                                        implies #[trigger] notes(out@).contains(Note::Publish(keys[k], topic@, *data)) by {
                                    if k < i {
                                        assert(out0.contains(Note::Publish(keys[k], topic@, *data)));
                                        let j = out0.index_of(Note::Publish(keys[k], topic@, *data));
                                        assert(notes(out@)[j] == out0[j]);
                                    } else {
                                        assert(notes(out@)[out0.len() as int] == Note::Publish(keys[k], topic@, *data));
                                    }
                                }
                            }
                        },
                    }
                    i = i + 1;
                }
                proof {
                    assert(keys.take(keys.len() as int) =~= keys);
                    assert(subs@.restrict(keys.to_set()) =~= subs@);
                    assert forall|c: u64|
                        sub_of(t0, topic@, c) == Some(Subscription::Session)
                            implies #[trigger] notes(out@).contains(Note::Publish(c, topic@, *data)) by {
                        assert(subs@.contains_key(c));
                        assert(keys.to_set().contains(c));
                        let k = keys.index_of(c);
                        assert(keys[k] == c);
                    }
                }
            },
        }
        proof {
            let p1 = self.pending();
            assert forall|c: u64, t: Seq<char>|
                #![trigger p1[c].topics.contains(t)]
                p1.contains_key(c) && p1[c].topics.contains(t) implies t0.contains_key(t)
                && t0[t].contains_key(c) && t0[t][c] == Subscription::Pending by {
                assert(p0[c].topics.contains(t));
            }
        }
        out
    }

    /// Stops the pool: every connection, pending or associated, is told to
    /// close.
    pub fn stop(self) -> (out: Vec<Outgoing<P>>)
        requires
            self.wf(),
        ensures
            stopped(self@, notes(out@)),
    {
        let mut out: Vec<Outgoing<P>> = Vec::new();
        let ghost pk = self.pending_connections.keys();
        let ghost ck = self.connections.keys();
        let mut i: usize = 0;
        while i < self.pending_connections.len()
            invariant
                pk == self.pending_connections.keys(),
                i <= pk.len(),
                out@.len() == i,
                forall|k: int| 0 <= k < i ==> #[trigger] out@[k]@ == Note::<P>::Stop(pk[k], CloseReason::PoolStopped),
            decreases pk.len() - i,
        {
            let c = *self.pending_connections.key_at(i);
            out.push(Outgoing::ToConnection(c, ConnectionMessage::StopSocket(CloseReason::PoolStopped)));
            i = i + 1;
        }
        let mut j: usize = 0;
        while j < self.connections.len()
            invariant
                pk == self.pending_connections.keys(),
                ck == self.connections.keys(),
                j <= ck.len(),
                out@.len() == pk.len() + j,
                forall|k: int| 0 <= k < pk.len() ==> #[trigger] out@[k]@ == Note::<P>::Stop(pk[k], CloseReason::PoolStopped),
                forall|k: int| 0 <= k < j ==> #[trigger] out@[pk.len() + k]@ == Note::<P>::Stop(ck[k], CloseReason::PoolStopped),
            decreases ck.len() - j,
        {
            let c = *self.connections.key_at(j);
            out.push(Outgoing::ToConnection(c, ConnectionMessage::StopSocket(CloseReason::PoolStopped)));
            proof {
                assert(out@[pk.len() + j]@ == Note::<P>::Stop(ck[j as int], CloseReason::PoolStopped));
            }
            j = j + 1;
        }
        proof {
            self.pending_connections.lemma_wf();
            self.connections.lemma_wf();
            let n = notes(out@);
            let pl = pk.len() as int;
            assert forall|a: int| 0 <= a < n.len() implies #[trigger] n[a] == Note::<P>::Stop(
                if a < pl { pk[a] } else { ck[a - pl] },
                CloseReason::PoolStopped,
            ) by {
                if a < pl {
                    assert(out@[a]@ == Note::<P>::Stop(pk[a], CloseReason::PoolStopped));
                } else {
                    assert(out@[pl + (a - pl)]@ == Note::<P>::Stop(ck[a - pl], CloseReason::PoolStopped));
                }
            }
            assert(n.no_duplicates()) by {
                assert forall|a: int, b: int| 0 <= a < b < n.len() implies n[a] != n[b] by {
                    assert(n[a] == Note::<P>::Stop(if a < pl { pk[a] } else { ck[a - pl] }, CloseReason::PoolStopped));
                    assert(n[b] == Note::<P>::Stop(if b < pl { pk[b] } else { ck[b - pl] }, CloseReason::PoolStopped));
                    if b < pl {
                    } else if a >= pl {
                    } else {
                        assert(pk.contains(pk[a]));
                        assert(ck.contains(ck[b - pl]));
                        assert(self.pending().contains_key(pk[a]));
                        assert(self.conns().contains_key(ck[b - pl]));
                    }
                }
            }
            assert forall|a: int|
                0 <= a < out@.len() implies (#[trigger] notes(out@)[a] matches Note::Stop(c, r)
                    && (self.pending().contains_key(c) || self.conns().contains_key(c))
                    && r == CloseReason::PoolStopped) by {
                let c = if a < pl { pk[a] } else { ck[a - pl] };
                assert(n[a] == Note::<P>::Stop(c, CloseReason::PoolStopped));
                if a < pl {
                    assert(pk.contains(pk[a]));
                    assert(pk.to_set().contains(c));
                    assert(self.pending().contains_key(c));
                } else {
                    assert(ck.contains(ck[a - pl]));
                    assert(ck.to_set().contains(c));
                    assert(self.conns().contains_key(c));
                }
                assert(notes(out@)[a] == Note::<P>::Stop(c, CloseReason::PoolStopped));
            }
            assert forall|c: u64|
                self.pending().contains_key(c) || self.conns().contains_key(c)
                    implies #[trigger] notes(out@).contains(Note::<P>::Stop(c, CloseReason::PoolStopped)) by {
                if self.pending().contains_key(c) {
                    assert(pk.to_set().contains(c));
                    let k = pk.index_of(c);
                    assert(n[k] == Note::<P>::Stop(pk[k], CloseReason::PoolStopped));
                } else {
                    assert(ck.to_set().contains(c));
                    let k = ck.index_of(c);
                    assert(n[pl + k] == Note::<P>::Stop(ck[k], CloseReason::PoolStopped));
                }
            }
        }
        out
    }

    /// Attaches connection `cid` to lattice `namespace` and sends it the
    /// lattice's current data for its session; a connection that is not
    /// associated yet gets the data once it is.
    pub fn lattice_attach(&mut self, cid: Cid, namespace: String) -> (out: Vec<Outgoing<P>>)
        requires
            old(self).wf(),
        ensures
            final(self).wf(),
            attached_to_lattice(old(self)@, final(self)@, cid, namespace, notes(out@)),

    {
        let mut out: Vec<Outgoing<P>> = Vec::new();
        match self.connections.remove(&cid) {
            Some(mut conn) => {
                let mut sess = self.sessions.remove(&conn.session_id).unwrap();
                let mut set = match sess.lattices.remove(&namespace) {
                    Some(set) => set,
                    None => KeySet::new(),
                };
                set.insert(cid);
                sess.lattices.insert(namespace.clone(), set);
                self.sessions.insert(conn.session_id.clone(), sess);
                conn.lattices.insert(namespace.clone());
                match self.lattices.get(&namespace) {
                    Some(lat) => {
                        let data = lattice_from(lat, &conn.session_id);
                        out.push(
                            Outgoing::ToConnection(
                                cid,
                                ConnectionMessage::Lattice(namespace.clone(), Arc::new(data)),
                            ),
                        );
                    },
                    None => {},
                }
                let ghost sid = conn.session_id@;
                self.connections.insert(cid, conn);
                proof {
                    let c = old(self).conns()[cid@];
                    let sess0 = old(self).sessions()[c.session_id];
                    assert(self.conns() =~= old(self).conns().insert(
                        cid@,
                        conn_lattices(c, c.lattices.insert(namespace@)),
                    ));
                    assert(self.sessions()[sid].lattices =~= attach_to(sess0.lattices, namespace@, cid@));
                    assert(self.sessions() =~= old(self).sessions().insert(
                        c.session_id,
                        session_lattices(sess0, attach_to(sess0.lattices, namespace@, cid@)),
                    ));
                    if old(self).lattices().contains_key(namespace@) {
                        assert(notes(out@) =~= seq![
                            Note::<P>::Lattice(
                                cid@,
                                namespace@,
                                lattice_from_view(old(self).lattices()[namespace@], c.session_id),
                            ),
                        ]);
                    } else {
                        assert(notes(out@) =~= Seq::<Note<P>>::empty());
                    }
                    self.lemma_sessions_agree_same_connections(old(self));
                }
            },
            None => {
                match self.pending_connections.remove(&cid) {
                    Some(mut conn) => {
                        conn.lattices.insert(namespace);
                        self.pending_connections.insert(cid, conn);
                        proof {
                            assert(self.pending() =~= old(self).pending().insert(
                                cid@,
                                pending_lattices(
                                    old(self).pending()[cid@],
                                    old(self).pending()[cid@].lattices.insert(namespace@),
                                ),
                            ));
                        }
                    },
                    None => {
                        proof {
                            assert(self.pending() =~= old(self).pending());
                        }
                    },
                }
                proof {
                    assert(self.conns() =~= old(self).conns());
                }
            },
        }
        out
    }

    /// Detaches connection `cid` from lattice `namespace`.
    pub fn lattice_detach(&mut self, cid: Cid, namespace: String)
        requires
            old(self).wf(),
        ensures
            final(self).wf(),
            detached_from_lattice(old(self)@, final(self)@, cid, namespace),

    {
        match self.connections.remove(&cid) {
            Some(mut conn) => {
                let mut sess = self.sessions.remove(&conn.session_id).unwrap();
                remove_attachment(&mut sess, &namespace, cid);
                self.sessions.insert(conn.session_id.clone(), sess);
                conn.lattices.remove(&namespace);
                self.connections.insert(cid, conn);
                proof {
                    let c = old(self).conns()[cid@];
                    let sess0 = old(self).sessions()[c.session_id];
                    assert(self.conns() =~= old(self).conns().insert(
                        cid@,
                        conn_lattices(c, c.lattices.remove(namespace@)),
                    ));
                    assert(self.sessions() =~= old(self).sessions().insert(
                        c.session_id,
                        session_lattices(sess0, detach_from(sess0.lattices, namespace@, cid@)),
                    ));
                    self.lemma_sessions_agree_same_connections(old(self));
                }
            },
            None => {
                match self.pending_connections.remove(&cid) {
                    Some(mut conn) => {
                        conn.lattices.remove(&namespace);
                        self.pending_connections.insert(cid, conn);
                        proof {
                            assert(self.pending() =~= old(self).pending().insert(
                                cid@,
                                pending_lattices(
                                    old(self).pending()[cid@],
                                    old(self).pending()[cid@].lattices.remove(namespace@),
                                ),
                            ));
                        }
                    },
                    None => {
                        proof {
                            assert(self.pending() =~= old(self).pending());
                        }
                    },
                }
                proof {
                    assert(self.conns() =~= old(self).conns());
                }
            },
        }
    }

    /// Where only attachments and connection lattices changed, connections
    /// and sessions still agree.
    proof fn lemma_sessions_agree_same_connections(&self, before: &Self)
        requires
            sessions_agree(before.sessions(), before.conns()),
            self.sessions().dom() == before.sessions().dom(),
            self.conns().dom() == before.conns().dom(),
            forall|s: Seq<char>| #[trigger] self.sessions().contains_key(s)
                ==> self.sessions()[s].connections == before.sessions()[s].connections,
            forall|c: u64| #[trigger] self.conns().contains_key(c)
                ==> self.conns()[c].session_id == before.conns()[c].session_id,
        ensures
            sessions_agree(self.sessions(), self.conns()),
    {
        assert forall|c: u64| #[trigger] self.conns().contains_key(c) implies self.sessions().contains_key(self.conns()[c].session_id)
            && self.sessions()[self.conns()[c].session_id].connections.contains(c) by {
            assert(before.conns().contains_key(c));
        }
        assert forall|s: Seq<char>, c: u64|
            #[trigger] self.sessions()[s].connections.contains(c) && self.sessions().contains_key(s)
            implies self.conns().contains_key(c) && self.conns()[c].session_id == s by {
            assert(before.sessions()[s].connections.contains(c));
        }
    }

    /// Records activity of session `sess_id` until `activity_ts`: an
    /// inactive session becomes active, an active one stays active at least
    /// that long, and an unknown session is created active.
    pub fn update_activity(&mut self, sess_id: String, activity_ts: u64)
        requires
            old(self).wf(),
        ensures
            final(self).wf(),
            activity_updated(old(self)@, final(self)@, sess_id, activity_ts),

    {
        let mut sess = match self.sessions.remove(&sess_id) {
            Some(sess) => sess,
            None => Session::new(),
        };
        sess.active_until = match sess.active_until {
            Some(d) => if d < activity_ts {
                Some(activity_ts)
            } else {
                Some(d)
            },
            None => Some(activity_ts),
        };
        self.sessions.insert(sess_id, sess);
        proof {
            let s0 = old(self).sessions();
            let s1 = self.sessions();
            assert(s1 =~= s0.insert(
                sess_id@,
                session_until(
                    session_or_blank(s0, sess_id@),
                    Some(activity_until(session_or_blank(s0, sess_id@).active_until, activity_ts)),
                ),
            ));
            let c1 = self.conns();
            assert forall|c: u64| #[trigger] c1.contains_key(c) implies s1.contains_key(c1[c].session_id)
                && s1[c1[c].session_id].connections.contains(c) by {
            }
            assert forall|x: Seq<char>, c: u64|
                #[trigger] s1[x].connections.contains(c) && s1.contains_key(x)
                implies c1.contains_key(c) && c1[c].session_id == x by {
                if x == sess_id@ && !s0.contains_key(x) {
                    assert(!s1[x].connections.contains(c));
                } else {
                    assert(s0[x].connections.contains(c));
                }
            }
        }
    }

    /// The position and time of the session that stops being active first.
    fn earliest_active(&self) -> (r: Option<(usize, u64)>)
        requires
            self.sessions.wf(),
        ensures
            r matches Some((i, d)) ==> {
                &&& i < self.sessions.keys().len()
                &&& self.sessions()[self.sessions.keys()[i as int]].active_until == Some(d)
                &&& forall|x: Seq<char>|
                    #[trigger] self.sessions().contains_key(x) && self.sessions()[x].active_until is Some
                        ==> d <= until_of(self.sessions()[x])
            },
            r is None ==> forall|x: Seq<char>|
                #[trigger] self.sessions().contains_key(x) ==> self.sessions()[x].active_until is None,
    {
        let ghost keys = self.sessions.keys();
        proof {
            self.sessions.lemma_wf();
        }
        let mut best: Option<(usize, u64)> = None;
        let mut i: usize = 0;
        while i < self.sessions.len()
            invariant
                self.sessions.wf(),
                keys == self.sessions.keys(),
                i <= keys.len(),
                self.sessions().dom() == keys.to_set(),
                keys.no_duplicates(),
                best matches Some((j, d)) ==> j < i && self.sessions()[keys[j as int]].active_until == Some(d)
                    && forall|k: int| 0 <= k < i && (#[trigger] self.sessions()[keys[k]]).active_until is Some
                        ==> d <= until_of(self.sessions()[keys[k]]),
                best is None ==> forall|k: int| 0 <= k < i ==> (#[trigger] self.sessions()[keys[k]]).active_until is None,
            decreases keys.len() - i,
        {
            let sess = self.sessions.value_at(i);
            match sess.active_until {
                Some(d) => {
                    match best {
                        Some((_, b)) => {
                            if d < b {
                                best = Some((i, d));
                            }
                        },
                        None => {
                            best = Some((i, d));
                        },
                    }
                },
                None => {},
            }
            i = i + 1;
        }
        proof {
            assert forall|x: Seq<char>| #[trigger] self.sessions().contains_key(x) implies exists|k: int|
                0 <= k < keys.len() && keys[k] == x by {
                assert(keys.to_set().contains(x));
                assert(keys.contains(x));
            }
        }
        best
    }

    /// Makes the sessions that are active until before `now` inactive (or
    /// drops them where they have no connection left), telling the pool's
    /// owner of each, earliest first; gives back the earliest time until
    /// which a session is still active.
    pub fn cleanup(&mut self, now: u64) -> (r: (Option<u64>, Vec<Outgoing<P>>))
        requires
            old(self).wf(),
        ensures
            final(self).wf(),
            cleaned_up(old(self)@, final(self)@, now, r.0, notes(r.1@)),

    {
        let mut out: Vec<Outgoing<P>> = Vec::new();
        let ghost m0 = self.sessions();
        let ghost mut done: Set<Seq<char>> = Set::empty();
        proof {
            self.sessions.lemma_wf();
            assert(self.sessions() =~= Map::new(
                |x: Seq<char>| m0.contains_key(x) && !(done.contains(x) && m0[x].connections.is_empty()),
                |x: Seq<char>| if done.contains(x) { session_until(m0[x], None) } else { m0[x] },
            ));
        }
        loop
            invariant
                self.wf(),
                m0 == old(self).sessions(),
                m0.dom().finite(),
                self.pending() == old(self).pending(),
                self.conns() == old(self).conns(),
                self.topic_subs() == old(self).topic_subs(),
                self.lattices() == old(self).lattices(),
                self.timeout() == old(self).timeout(),
                done.subset_of(m0.dom()),
                done.finite(),
                forall|x: Seq<char>| #[trigger] done.contains(x) ==> expired(m0[x], now),
                self.sessions() == Map::new(
                    |x: Seq<char>| m0.contains_key(x) && !(done.contains(x) && m0[x].connections.is_empty()),
                    |x: Seq<char>| if done.contains(x) { session_until(m0[x], None) } else { m0[x] },
                ),
                notes(out@).no_duplicates(),
                forall|i: int|
                    0 <= i < out@.len() ==> {
                        let sid = noted_session(#[trigger] notes(out@)[i]);
                        &&& done.contains(sid)
                        &&& notes(out@)[i] == inactive_note(sid, m0[sid])
                    },
                forall|x: Seq<char>| #[trigger] done.contains(x) ==> notes(out@).contains(inactive_note(x, m0[x])),
                forall|i: int, j: int|
                    0 <= i < j < out@.len() ==> until_of(m0[noted_session(#[trigger] notes(out@)[i])])
                        <= until_of(m0[noted_session(#[trigger] notes(out@)[j])]),
                forall|i: int, x: Seq<char>|
                    0 <= i < out@.len() && m0.contains_key(x) && !done.contains(x) && m0[x].active_until is Some
                        ==> until_of(m0[noted_session(#[trigger] notes(out@)[i])]) <= #[trigger] until_of(m0[x]),
            ensures
                self.wf(),
                self.pending() == old(self).pending(),
                self.conns() == old(self).conns(),
                self.topic_subs() == old(self).topic_subs(),
                self.lattices() == old(self).lattices(),
                self.timeout() == old(self).timeout(),
                forall|x: Seq<char>| #[trigger] done.contains(x) ==> expired(m0[x], now),
                forall|x: Seq<char>| m0.contains_key(x) && expired(m0[x], now) ==> #[trigger] done.contains(x),
                self.sessions() == Map::new(
                    |x: Seq<char>| m0.contains_key(x) && !(done.contains(x) && m0[x].connections.is_empty()),
                    |x: Seq<char>| if done.contains(x) { session_until(m0[x], None) } else { m0[x] },
                ),
                notes(out@).no_duplicates(),
                forall|i: int|
                    0 <= i < out@.len() ==> {
                        let sid = noted_session(#[trigger] notes(out@)[i]);
                        &&& done.contains(sid)
                        &&& notes(out@)[i] == inactive_note(sid, m0[sid])
                    },
                forall|x: Seq<char>| #[trigger] done.contains(x) ==> notes(out@).contains(inactive_note(x, m0[x])),
                forall|i: int, j: int|
                    0 <= i < j < out@.len() ==> until_of(m0[noted_session(#[trigger] notes(out@)[i])])
                        <= until_of(m0[noted_session(#[trigger] notes(out@)[j])]),
            decreases m0.dom().len() - done.len(),
        {
            let first = self.earliest_active();
            let (i, d) = match first {
                None => {
                    proof {
                        assert forall|x: Seq<char>| m0.contains_key(x) && expired(m0[x], now) implies #[trigger] done.contains(x) by {
                            if !done.contains(x) {
                                assert(self.sessions().contains_key(x));
                            }
                        }
                    }
                    break;
                },
                Some(p) => p,
            };
            if d >= now {
                proof {
                    assert forall|x: Seq<char>| m0.contains_key(x) && expired(m0[x], now) implies #[trigger] done.contains(x) by {
                        if !done.contains(x) {
                            assert(self.sessions().contains_key(x));
                            assert(self.sessions()[x].active_until is Some);
                        }
                    }
                }
                break;
            }
            let sid = self.sessions.key_at(i).clone();
            let ghost k = sid@;
            proof {
                assert(self.sessions().contains_key(k));
                assert(!done.contains(k));
                assert(self.sessions()[k] == m0[k]);
            }
            let mut sess = self.sessions.remove(&sid).unwrap();
            let n = sess.connections.len();
            proof {
                sess.connections.lemma_len();
            }
            let ghost out0 = notes(out@);
            out.push(
                Outgoing::ToPool(
                    PoolMessage::InactiveSession {
                        session_id: sid.clone(),
                        connections_active: n,
                        metadata: share_opt(&sess.metadata),
                    },
                ),
            );
            if n != 0 {
                sess.active_until = None;
                self.sessions.insert(sid, sess);
            }
            proof {
                let done0 = done;
                done = done.insert(k);
                vstd::set_lib::lemma_len_subset(done, m0.dom());
                assert(notes(out@) =~= out0.push(inactive_note(k, m0[k])));
                assert(self.sessions() =~= Map::new(
                    |x: Seq<char>| m0.contains_key(x) && !(done.contains(x) && m0[x].connections.is_empty()),
                    |x: Seq<char>| if done.contains(x) { session_until(m0[x], None) } else { m0[x] },
                ));
                assert(!out0.contains(inactive_note(k, m0[k]))) by {
                    if out0.contains(inactive_note(k, m0[k])) {
                        let j = out0.index_of(inactive_note(k, m0[k]));
                        assert(noted_session(out0[j]) == k);
                        assert(done0.contains(k));
                    }
                }
                let n1 = notes(out@);
                assert forall|a: int| 0 <= a < out@.len() implies {
                    let sid = noted_session(#[trigger] n1[a]);
                    &&& done.contains(sid)
                    &&& n1[a] == inactive_note(sid, m0[sid])
                } by {
                    if a < out0.len() {
                        assert(n1[a] == out0[a]);
                    }
                }
                assert forall|x: Seq<char>| #[trigger] done.contains(x) implies n1.contains(inactive_note(x, m0[x])) by {
                    if x == k {
                        assert(n1[out0.len() as int] == inactive_note(k, m0[k]));
                    } else {
                        assert(done0.contains(x));
                        let j = out0.index_of(inactive_note(x, m0[x]));
                        assert(n1[j] == out0[j]);
                    }
                }
                assert forall|a: int, b: int| 0 <= a < b < out@.len() implies until_of(m0[noted_session(#[trigger] n1[a])])
                    <= until_of(m0[noted_session(#[trigger] n1[b])]) by {
                    if b < out0.len() {
                        assert(n1[a] == out0[a]);
                        assert(n1[b] == out0[b]);
                    } else {
                        assert(n1[a] == out0[a]);
                        assert(noted_session(n1[b]) == k);
                        assert(m0.contains_key(k) && !done0.contains(k) && m0[k].active_until is Some);
                        assert(until_of(m0[noted_session(out0[a])]) <= until_of(m0[k]));
                    }
                }
                assert forall|a: int, x: Seq<char>|
                    0 <= a < out@.len() && m0.contains_key(x) && !done.contains(x) && m0[x].active_until is Some
                    implies until_of(m0[noted_session(#[trigger] n1[a])]) <= #[trigger] until_of(m0[x]) by {
                    assert(self.sessions().contains_key(x) || x == k);
                    assert(old(self).sessions()[x] == m0[x]);
                    if a < out0.len() {
                        assert(n1[a] == out0[a]);
                    } else {
                        assert(noted_session(n1[a]) == k);
                    }
                }
            }
        }
        let first = self.earliest_active();
        let next = match first {
            Some((_, d)) => Some(d),
            None => None,
        };
        proof {
            let m1 = self.sessions();
            assert(m1 =~= after_cleanup(m0, now));
            assert forall|x: Seq<char>|
                #[trigger] m0.contains_key(x) && expired(m0[x], now)
                implies notes(out@).contains(inactive_note(x, m0[x])) by {
                assert(done.contains(x));
            }
            if let Some((i, d)) = first {
                self.sessions.lemma_wf();
                let x = self.sessions.keys()[i as int];
                assert(self.sessions.keys().contains(x));
                assert(m1.contains_key(x) && m1[x].active_until == Some(d));
            }
            let c1 = self.conns();
            assert forall|c: u64| #[trigger] c1.contains_key(c) implies m1.contains_key(c1[c].session_id)
                && m1[c1[c].session_id].connections.contains(c) by {
                assert(m0[c1[c].session_id].connections.contains(c));
            }
            assert forall|x: Seq<char>, c: u64|
                #[trigger] m1[x].connections.contains(c) && m1.contains_key(x)
                implies c1.contains_key(c) && c1[c].session_id == x by {
                assert(m0[x].connections.contains(c));
            }
        }
        (next, out)
    }

    /// Forgets connection `conn_id`: its subscriptions go, and its session
    /// no longer counts it (an inactive session also detaches it from its
    /// lattices, and goes away with its last connection).
    pub fn del_connection(&mut self, conn_id: Cid)
        requires
            old(self).wf(),
            old(self).pending().contains_key(conn_id@) || old(self).conns().contains_key(conn_id@),
        ensures
            final(self).wf(),
            disconnected(old(self)@, final(self)@, conn_id),

    {
        let ghost t0 = self.topic_subs();
        match self.pending_connections.remove(&conn_id) {
            Some(conn) => {
                unsubscribe_all(&mut self.topics, &conn.topics, conn_id);
                proof {
                    self.lemma_drop_connection_subs(old(self), conn_id@);
                }
                return;
            },
            None => {},
        }
        let conn = self.connections.remove(&conn_id).unwrap();
        unsubscribe_all(&mut self.topics, &conn.topics, conn_id);
        let ghost c = conn@;
        let mut sess = self.sessions.remove(&conn.session_id).unwrap();
        sess.connections.remove(&conn_id);
        let inactive = sess.active_until.is_none();
        if inactive {
            detach_all_of(&mut sess, &conn.lattices, conn_id);
        }
        proof {
            assert(sess@ == session_without(old(self).sessions()[c.session_id], c));
        }
        if inactive && sess.connections.is_empty() {
        } else {
            self.sessions.insert(conn.session_id, sess);
        }
        proof {
            let s0 = old(self).sessions();
            assert(self.pending() =~= old(self).pending());
            assert(self.sessions() =~= sessions_without(s0, c));
            self.lemma_drop_connection_subs(old(self), conn_id@);
            let s1 = self.sessions();
            let c1 = self.conns();
            assert forall|x: u64| #[trigger] c1.contains_key(x) implies s1.contains_key(c1[x].session_id)
                && s1[c1[x].session_id].connections.contains(x) by {
                let sid = c1[x].session_id;
                assert(s0[sid].connections.contains(x));
                if sid == c.session_id {
                    assert(s0[sid].connections.remove(conn_id@).contains(x));
                }
            }
            assert forall|y: Seq<char>, x: u64|
                #[trigger] s1[y].connections.contains(x) && s1.contains_key(y)
                implies c1.contains_key(x) && c1[x].session_id == y by {
                assert(s0[y].connections.contains(x));
            }
        }
    }

    /// Once connection `cid`, pending or associated, is gone together with
    /// its subscriptions, subscriptions and connections still agree.
    proof fn lemma_drop_connection_subs(&self, before: &Self, cid: u64)
        requires
            before.inv(),
            before.pending().contains_key(cid) ==> {
                &&& self.pending() == before.pending().remove(cid)
                &&& self.conns() == before.conns()
                &&& self.topic_subs() == drop_subs(before.topic_subs(), before.pending()[cid].topics, cid)
            },
            !before.pending().contains_key(cid) ==> {
                &&& before.conns().contains_key(cid)
                &&& self.pending() == before.pending()
                &&& self.conns() == before.conns().remove(cid)
                &&& self.topic_subs() == drop_subs(before.topic_subs(), before.conns()[cid].topics, cid)
            },
        ensures
            subscriptions_known(self.topic_subs(), self.pending(), self.conns()),
            topics_subscribed(self.topic_subs(), self.pending(), self.conns()),
            forall|c: u64| #[trigger] self.pending().contains_key(c) ==> !self.conns().contains_key(c),
            forall|c: u64| #[trigger] self.pending().contains_key(c) ==> self.pending()[c].cid == c,
            forall|c: u64| #[trigger] self.conns().contains_key(c) ==> self.conns()[c].cid == c,
    {
        let t0 = before.topic_subs();
        let t1 = self.topic_subs();
        let p0 = before.pending();
        let c0 = before.conns();
        let p1 = self.pending();
        let c1 = self.conns();
        let ts = if p0.contains_key(cid) { p0[cid].topics } else { c0[cid].topics };
        assert forall|t: Seq<char>, c: u64|
            #![trigger t1[t][c]]
            t1.contains_key(t) && t1[t].contains_key(c) implies {
            &&& t1[t][c] == Subscription::Pending ==> p1.contains_key(c) && p1[c].topics.contains(t)
            &&& t1[t][c] == Subscription::Session ==> c1.contains_key(c) && c1[c].topics.contains(t)
        } by {
            assert(t0.contains_key(t));
            if ts.contains(t) {
                assert(t0[t].remove(cid).contains_key(c));
                assert(c != cid);
            } else {
                assert(t0[t].contains_key(c));
                if c == cid {
                    assert(t0[t][c] == Subscription::Pending || t0[t][c] == Subscription::Session);
                }
            }
            assert(t0[t][c] == t1[t][c]);
        }
        assert forall|c: u64, t: Seq<char>|
            #![trigger p1[c].topics.contains(t)]
            p1.contains_key(c) && p1[c].topics.contains(t) implies t1.contains_key(t)
            && t1[t].contains_key(c) && t1[t][c] == Subscription::Pending by {
            assert(p0[c].topics.contains(t));
            assert(t0[t][c] == Subscription::Pending);
            if ts.contains(t) {
                assert(t0[t].remove(cid).contains_key(c));
            }
        }
        assert forall|c: u64, t: Seq<char>|
            #![trigger c1[c].topics.contains(t)]
            c1.contains_key(c) && c1[c].topics.contains(t) implies t1.contains_key(t)
            && t1[t].contains_key(c) && t1[t][c] == Subscription::Session by {
            assert(c0[c].topics.contains(t));
            assert(t0[t][c] == Subscription::Session);
            if ts.contains(t) {
                assert(t0[t].remove(cid).contains_key(c));
            }
        }
    }

    /// Associates pending connection `conn_id` with session `session_id` at
    /// time `timestamp`: the connection gets the messages buffered for it
    /// and, for each lattice it is attached to, the lattice's data for the
    /// session; its subscriptions become the session's; the session is
    /// created or activated. Where a lattice it is attached to does not
    /// exist, the connection is dropped instead, with its subscriptions.
    pub fn associate(&mut self, conn_id: Cid, session_id: String, timestamp: u64, metadata: Arc<P>)
        -> (out: Vec<Outgoing<P>>)
        requires
            old(self).wf(),
            can_join(old(self)@, conn_id@) ==> timestamp + old(self).timeout() <= u64::MAX,
        ensures
            final(self).wf(),
            associated(old(self)@, final(self)@, conn_id, session_id, timestamp, metadata, notes(out@)),

    {
        let mut out: Vec<Outgoing<P>> = Vec::new();
        let conn = match self.pending_connections.remove(&conn_id) {
            Some(conn) => conn,
            None => {
                proof {
                    assert(self.pending() =~= old(self).pending());
                }
                return out;
            },
        };
        let ghost pv = conn@;
        let NewConnection { cid: _, topics, lattices, message_buffer } = conn;
        let ghost bv = buffer_view(message_buffer@);
        let mut i: usize = 0;
        while i < message_buffer.len()
            invariant
                i <= message_buffer@.len(),
                bv == buffer_view(message_buffer@),
                out@.len() == i,
                forall|k: int| 0 <= k < i ==> #[trigger] out@[k]@ == Note::<P>::Publish(conn_id@, bv[k].0, bv[k].1),
            decreases message_buffer@.len() - i,
        {
            let m = &message_buffer[i];
            out.push(Outgoing::ToConnection(conn_id, ConnectionMessage::Publish(m.0.clone(), share(&m.1))));
            i = i + 1;
        }
        proof {
            assert(notes(out@).take(bv.len() as int) =~= buffer_notes(conn_id@, bv));
        }
        if !all_known(&self.lattices, &lattices) {
            unsubscribe_all(&mut self.topics, &topics, conn_id);
            proof {
                self.lemma_drop_connection_subs(old(self), conn_id@);
            }
            return out;
        }
        let ghost b = bv.len();
        let ghost e = lattices.elems();
        let ghost lv = self.lattices();
        let mut j: usize = 0;
        while j < lattices.len()
            invariant
                self.lattices.wf(),
                self.lattices() == lv,
                lattices.wf(),
                e == lattices.elems(),
                lattices@.subset_of(lv.dom()),
                j <= e.len(),
                out@.len() == b + j,
                notes(out@).take(b as int) == buffer_notes(conn_id@, bv),
                forall|k: int| 0 <= k < j ==> #[trigger] out@[b + k]@ == Note::<P>::Lattice(
                    conn_id@,
                    e[k],
                    lattice_from_view(lv[e[k]], session_id@),
                ),
            decreases e.len() - j,
        {
            let ns = lattices.item_at(j);
            let lat = self.lattices.get(ns).unwrap();
            let data = lattice_from(lat, &session_id);
            let ghost n0 = notes(out@);
            out.push(Outgoing::ToConnection(conn_id, ConnectionMessage::Lattice(ns.clone(), Arc::new(data))));
            proof {
                assert(notes(out@).take(b as int) =~= n0.take(b as int));
            }
            j = j + 1;
        }
        let ghost t0 = self.topic_subs();
        proof {
            assert forall|t: Seq<char>| topics@.contains(t) implies t0.contains_key(t) by {
                assert(old(self).pending()[conn_id@].topics.contains(t));
            }
        }
        promote_all(&mut self.topics, &topics, conn_id);
        let expire = timestamp + self.new_connection_timeout;
        let ghost s0 = self.sessions();
        let (mut sess, until) = match self.sessions.remove(&session_id) {
            Some(sess) => {
                let until = if sess.active_until.is_none() {
                    timestamp
                } else {
                    expire
                };
                (sess, until)
            },
            None => (Session::new(), expire),
        };
        sess.active_until = Some(until);
        sess.connections.insert(conn_id);
        sess.metadata = Some(metadata);
        attach_all_of(&mut sess, &lattices, conn_id);
        proof {
            assert(sess@ == session_joined(s0, session_id@, pv, timestamp, old(self).timeout(), *metadata));
        }
        let ghost jv = sess@;
        self.sessions.insert(session_id.clone(), sess);
        proof {
            assert(self.sessions() =~= s0.insert(session_id@, jv));
            assert(s0 =~= old(self).sessions());
        }
        self.connections.insert(conn_id, Connection { cid: conn_id, session_id, topics, lattices });
        proof {
            let n = notes(out@);
            lattices.lemma_len();
            lattices.lemma_unique();
            assert(n.skip(b as int).no_duplicates()) by {
                assert forall|x: int, y: int| 0 <= x < y < n.skip(b as int).len() implies n.skip(b as int)[x] != n.skip(b as int)[y] by {
                    assert(n.skip(b as int)[x] == out@[b + x]@);
                    assert(n.skip(b as int)[y] == out@[b + y]@);
                }
            }
            assert forall|i: int|
                b <= i < n.len() implies (#[trigger] n[i] matches Note::Lattice(c, ns, data)
                    && c == conn_id@ && pv.lattices.contains(ns)
                    && data == lattice_from_view(lv[ns], session_id@)) by {
                assert(n[i] == out@[b + (i - b)]@);
                assert(e.contains(e[i - b]));
            }
            assert forall|ns: Seq<char>|
                #[trigger] pv.lattices.contains(ns) implies n.contains(
                    Note::Lattice(conn_id@, ns, lattice_from_view(lv[ns], session_id@)),
                ) by {
                let k = e.index_of(ns);
                assert(n[b + k] == out@[b + k]@);
            }
            self.lemma_join(old(self), conn_id@, session_id@, pv, jv);
        }
        out
    }

    /// Once pending connection `cid` joined session `sid`, the pool is still
    /// consistent.
    proof fn lemma_join(&self, before: &Self, cid: u64, sid: Seq<char>, p: PendingView<P>, joined: SessionView<P>)
        requires
            before.inv(),
            before.pending().contains_key(cid),
            p == before.pending()[cid],
            self.pending() == before.pending().remove(cid),
            self.conns() == before.conns().insert(
                cid,
                ConnView { cid: cid, session_id: sid, topics: p.topics, lattices: p.lattices },
            ),
            self.topic_subs() == promote_subs(before.topic_subs(), p.topics, cid),
            self.sessions() == before.sessions().insert(sid, joined),
            joined.connections == session_or_blank(before.sessions(), sid).connections.insert(cid),
            joined.lattices == attach_all(session_or_blank(before.sessions(), sid).lattices, p.lattices, cid),
        ensures
            self.inv(),
    {
        let t0 = before.topic_subs();
        let t1 = self.topic_subs();
        let p0 = before.pending();
        let c0 = before.conns();
        let p1 = self.pending();
        let c1 = self.conns();
        let s0 = before.sessions();
        let s1 = self.sessions();
        assert(p.cid == cid);
        assert forall|t: Seq<char>, c: u64|
            #![trigger t1[t][c]]
            t1.contains_key(t) && t1[t].contains_key(c) implies {
            &&& t1[t][c] == Subscription::Pending ==> p1.contains_key(c) && p1[c].topics.contains(t)
            &&& t1[t][c] == Subscription::Session ==> c1.contains_key(c) && c1[c].topics.contains(t)
        } by {
            if c == cid {
                if !p.topics.contains(t) {
                    assert(t0[t].contains_key(c));
                    assert(t0[t][c] == Subscription::Pending || t0[t][c] == Subscription::Session);
                }
            } else {
                assert(t0[t].contains_key(c));
                assert(t1[t][c] == t0[t][c]);
            }
        }
        assert forall|c: u64, t: Seq<char>|
            #![trigger p1[c].topics.contains(t)]
            p1.contains_key(c) && p1[c].topics.contains(t) implies t1.contains_key(t)
            && t1[t].contains_key(c) && t1[t][c] == Subscription::Pending by {
            assert(p0[c].topics.contains(t));
        }
        assert forall|c: u64, t: Seq<char>|
            #![trigger c1[c].topics.contains(t)]
            c1.contains_key(c) && c1[c].topics.contains(t) implies t1.contains_key(t)
            && t1[t].contains_key(c) && t1[t][c] == Subscription::Session by {
            if c == cid {
                assert(p0[cid].topics.contains(t));
            } else {
                assert(c0[c].topics.contains(t));
            }
        }
        assert forall|c: u64| #[trigger] c1.contains_key(c) implies s1.contains_key(c1[c].session_id)
            && s1[c1[c].session_id].connections.contains(c) by {
            if c != cid {
                assert(s0[c0[c].session_id].connections.contains(c));
            }
        }
        assert forall|y: Seq<char>, c: u64|
            #[trigger] s1[y].connections.contains(c) && s1.contains_key(y)
            implies c1.contains_key(c) && c1[c].session_id == y by {
            if c != cid {
                assert(s0.contains_key(y) && s0[y].connections.contains(c));
            }
        }
        assert forall|y: Seq<char>, ns: Seq<char>, c: u64|
            #![trigger s1[y].lattices[ns].contains(c)]
            s1.contains_key(y) && s1[y].lattices.contains_key(ns) && s1[y].lattices[ns].contains(c)
            implies !p1.contains_key(c) && (c1.contains_key(c) ==> c1[c].session_id == y) by {
            if y == sid {
                if c != cid {
                    assert(s0.contains_key(sid) && s0[sid].lattices.contains_key(ns)
                        && s0[sid].lattices[ns].contains(c));
                }
            } else {
                assert(s0[y].lattices[ns].contains(c));
                assert(c != cid);
            }
        }
    }

    /// Updates lattice `namespace` with `delta`, subscribing each session of
    /// the delta to its rooms. Each connection attached to the namespace of
    /// a session that hears of the change is sent what changed for it: a
    /// session with private data in the delta gets its own rooms (with the
    /// shared values laid over, and the shared values of rooms it newly
    /// subscribed to), another subscribed to a changed shared room gets the
    /// changed shared rooms.
    pub fn lattice_update(&mut self, namespace: String, delta: Delta) -> (out: Vec<Outgoing<P>>)
        requires
            old(self).wf(),
            delta.valid(),
        ensures
            final(self).wf(),
            lattice_updated_by(old(self)@, final(self)@, namespace, delta, notes(out@)),

    {
        let ghost l0 = lattice_or_new(self.lattices(), namespace@);
        let ghost d0 = delta@;
        let mut lat = match self.lattices.remove(&namespace) {
            Some(l) => l,
            None => Lattice::new(),
        };
        proof {
            assert(lat@ == l0);
        }
        let nk = subscribe_rooms(&mut lat.subscriptions, &delta.private);
        let fresh = lat.update(delta);
        let ghost l1 = lat@;
        let ghost f = fresh@;
        proof {
            assert(l1 == lattice_updated(l0, d0));
            assert(f == delta_fresh(l0, d0));
        }
        let Delta { shared, private } = fresh;
        let pubdata = Arc::new(shared);
        let mut out: Vec<Outgoing<P>> = Vec::new();
        send_shared(&mut out, &self.sessions, &self.connections, &lat.subscriptions, &private, &namespace, &pubdata);
        let ghost mid = out@;
        send_private(&mut out, &self.sessions, &self.connections, private, &*pubdata, &lat, &nk, &namespace);
        self.lattices.insert(namespace, lat);
        proof {
            let ss = self.sessions();
            let cs = self.conns();
            let ns = namespace@;
            let n = notes(out@);
            let nkv = Map::new(
                |x: Seq<char>| d0.private.contains_key(x),
                |x: Seq<char>| new_rooms(l0.subscriptions, d0.private, x),
            );
            assert(self.lattices() =~= old(self).lattices().insert(ns, l1));
            assert(f.private.dom() =~= d0.private.dom());
            assert forall|x: Seq<char>| d0.private.contains_key(x) implies personal_data(f.private, f.shared, l1, nkv, x)
                == personal_update(l0, d0, x) by {
            }
            assert forall|x: Seq<char>|
                shared_hearer(l1.subscriptions, f.shared, f.private, x) == shared_hearer(
                    l1.subscriptions,
                    f.shared,
                    d0.private,
                    x,
                ) by {
            }
            assert(n =~= notes(mid) + notes(out@).skip(mid.len() as int)) by {
                assert forall|k: int| 0 <= k < mid.len() implies n[k] == notes(mid)[k] by {
                    assert(out@[k] == mid[k]);
                }
            }
            assert(notes(mid) =~= notes(mid).skip(0));
            assert forall|i: int, j: int|
                0 <= i < mid.len() && 0 <= j < out@.len() - mid.len() implies note_cid(
                #[trigger] notes(mid)[i],
            ) != note_cid(#[trigger] notes(out@).skip(mid.len() as int)[j]) by {
                assert(notes(mid)[i] == notes(mid).skip(0)[i]);
                assert(notes(out@).skip(mid.len() as int)[j] == n[mid.len() + j]);
            }
            lemma_distinct_join(notes(mid), notes(out@).skip(mid.len() as int));
            assert(distinct_cids(n));
            assert(n.no_duplicates()) by {
                assert forall|i: int, j: int| 0 <= i < j < n.len() implies n[i] != n[j] by {
                    assert(note_cid(n[i]) != note_cid(n[j]));
                }
            }
            assert forall|k: int| 0 <= k < out@.len() implies update_delivered(ss, cs, l0, d0, ns, #[trigger] n[k]) by {
                if k < mid.len() {
                    assert(out@[k] == mid[k]);
                    assert(n[k] == notes(mid)[k]);
                    if let Note::Lattice(c, nn, d) = n[k] {
                        let x = choose|x: Seq<char>|
                            shared_hearer(l1.subscriptions, f.shared, f.private, x)
                                && #[trigger] lattice_targets(ss, cs, x, ns).contains(c);
                        assert(update_receiver(l0, d0, x));
                        assert(n[k] == update_note::<P>(l0, d0, ns, x, c));
                    }
                } else {
                    if let Note::Lattice(c, nn, d) = n[k] {
                        let x = choose|x: Seq<char>|
                            f.private.contains_key(x) && #[trigger] lattice_targets(ss, cs, x, ns).contains(c)
                                && d == personal_data(f.private, f.shared, l1, nkv, x);
                        assert(update_receiver(l0, d0, x));
                        assert(n[k] == update_note::<P>(l0, d0, ns, x, c));
                    }
                }
            }
            assert forall|k: int| 0 <= k < out@.len() implies own_update(ss, cs, l0, d0, ns, #[trigger] n[k]) by {
                assert(update_delivered(ss, cs, l0, d0, ns, n[k]));
                let (x, c) = choose|x: Seq<char>, c: u64|
                    update_receiver(l0, d0, x) && #[trigger] lattice_targets(ss, cs, x, ns).contains(c)
                        && n[k] == update_note::<P>(l0, d0, ns, x, c);
                assert(note_cid(n[k]) == c);
                assert(ss.contains_key(x));
                assert(attached(ss[x].lattices, ns).contains(c));
                assert(ss[x].lattices.contains_key(ns));
                assert(ss[x].lattices[ns].contains(c));
                assert(cs[c].session_id == x);
            }
            assert forall|x: Seq<char>, c: u64|
                update_receiver(l0, d0, x) && #[trigger] lattice_targets(ss, cs, x, ns).contains(c)
                    implies n.contains(update_note::<P>(l0, d0, ns, x, c)) by {
                let m = update_note::<P>(l0, d0, ns, x, c);
                if d0.private.contains_key(x) {
                    assert(notes(out@).skip(mid.len() as int).contains(m));
                    let k = notes(out@).skip(mid.len() as int).index_of(m);
                    assert(n[mid.len() + k] == m);
                } else {
                    assert(shared_hearer(l1.subscriptions, f.shared, f.private, x));
                    assert(notes(mid).contains(m));
                    let k = notes(mid).index_of(m);
                    assert(out@[k] == mid[k]);
                    assert(n[k] == m);
                }
            }
        }
        out
    }

    /// The number of active sessions.
    pub fn active_sessions(&self) -> (r: usize)
        requires
            self.wf(),
        ensures
            r == self.sessions().dom().filter(|s: Seq<char>| self.sessions()[s].active_until is Some).len(),
    {
        let r = self.count_sessions(true);
        proof {
            let m = self.sessions();
            assert(m.dom().filter(|s: Seq<char>| (m[s].active_until is Some) == true) =~= m.dom().filter(
                |s: Seq<char>| m[s].active_until is Some,
            ));
        }
        r
    }

    /// The number of inactive sessions.
    pub fn inactive_sessions(&self) -> (r: usize)
        requires
            self.wf(),
        ensures
            r == self.sessions().dom().filter(|s: Seq<char>| self.sessions()[s].active_until is None).len(),
    {
        let r = self.count_sessions(false);
        proof {
            let m = self.sessions();
            assert(m.dom().filter(|s: Seq<char>| (m[s].active_until is Some) == false) =~= m.dom().filter(
                |s: Seq<char>| m[s].active_until is None,
            ));
        }
        r
    }

    /// The number of sessions that are active (or inactive, for `active`
    /// false).
    fn count_sessions(&self, active: bool) -> (r: usize)
        requires
            self.wf(),
        ensures
            r == self.sessions().dom().filter(|s: Seq<char>| (self.sessions()[s].active_until is Some) == active).len(),
    {
        let ghost m = self.sessions();
        let ghost keys = self.sessions.keys();
        let ghost pred = |s: Seq<char>| (m[s].active_until is Some) == active;
        proof {
            self.sessions.lemma_wf();
            broadcast use vstd::seq_lib::seq_to_set_is_finite;
            assert(keys.take(0).to_set().filter(pred) =~= Set::<Seq<char>>::empty());
        }
        let mut n: usize = 0;
        let mut i: usize = 0;
        while i < self.sessions.len()
            invariant
                self.sessions.wf(),
                m == self.sessions(),
                keys == self.sessions.keys(),
                keys.no_duplicates(),
                m.dom() == keys.to_set(),
                i <= keys.len(),
                n <= i,
                pred == (|s: Seq<char>| (m[s].active_until is Some) == active),
                n == keys.take(i as int).to_set().filter(pred).len(),
            decreases keys.len() - i,
        {
            let ghost k = keys[i as int];
            let ghost before = keys.take(i as int).to_set();
            proof {
                broadcast use vstd::seq_lib::seq_to_set_is_finite;
                assert(keys.take(i + 1) =~= keys.take(i as int).push(k));
                keys.take(i as int).lemma_push_to_set_commute(k);
                assert(!before.contains(k)) by {
                    if before.contains(k) {
                        let j = keys.take(i as int).index_of(k);
                        assert(keys[j] == keys[i as int]);
                    }
                }
                vstd::set_lib::lemma_len_subset(before.filter(pred), before);
                before.lemma_len_filter(pred);
            }
            let is_active = self.sessions.value_at(i).active_until.is_some();
            if is_active == active {
                proof {
                    assert(before.insert(k).filter(pred) =~= before.filter(pred).insert(k));
                }
                n = n + 1;
            } else {
                proof {
                    assert(before.insert(k).filter(pred) =~= before.filter(pred));
                }
            }
            i = i + 1;
        }
        proof {
            assert(keys.take(keys.len() as int) =~= keys);
            assert(m.dom().filter(pred) =~= m.dom().filter(|s: Seq<char>| (self.sessions()[s].active_until is Some) == active));
        }
        n
    }
}

} // verus!
