//! What the operations of a session pool promise together: how subscribing,
//! unsubscribing, disconnecting and publishing relate.
use vstd::prelude::*;
use std::sync::Arc;
use crate::cid::Cid;
use crate::lattice::{Delta, LatticeView, ValuesView};
use crate::pool::{
    Pool, PoolView, Subscription, associated, attached, attached_to_lattice, can_join,
    detached_from_lattice, disconnected, lattice_from_view,
    lattice_targets, lattice_updated_by, note_cid, published, sub_of, subscribed, unsubscribed,
    update_note,
};
use crate::processor::Note;

verus! {

/// Law: a message published to a topic reaches every connection of a
/// session that subscribed to it.
pub proof fn law_publish_reaches_subscriber<P>(
    p0: PoolView<P>,
    p1: PoolView<P>,
    p2: PoolView<P>,
    c: Cid,
    topic: String,
    data: Arc<P>,
    n: Seq<Note<P>>,
)
    requires
        p0.conns.contains_key(c@),
        subscribed(p0, p1, c, topic),
        published(p1, p2, topic, data, n),
    ensures
        n.contains(Note::Publish(c@, topic@, *data)),
{
    assert(sub_of(p1.topics, topic@, c@) == Some(Subscription::Session));
}

/// Law: a message published to a topic that a connection subscribed to
/// before its session is known waits in that connection's buffer, after
/// what was there.
pub proof fn law_publish_buffers_for_pending<P>(
    p0: PoolView<P>,
    p1: PoolView<P>,
    p2: PoolView<P>,
    c: Cid,
    topic: String,
    data: Arc<P>,
    n: Seq<Note<P>>,
)
    requires
        p0.pending.contains_key(c@),
        !p0.conns.contains_key(c@),
        subscribed(p0, p1, c, topic),
        published(p1, p2, topic, data, n),
    ensures
        p2.pending.contains_key(c@),
        p2.pending[c@].buffer == p1.pending[c@].buffer.push((topic@, *data)),
        !n.contains(Note::Publish(c@, topic@, *data)),
{
    assert(sub_of(p1.topics, topic@, c@) == Some(Subscription::Pending));
    assert forall|i: int| 0 <= i < n.len() implies #[trigger] n[i] != Note::Publish(
        c@,
        topic@,
        *data,
    ) by {}
}

/// Law: once a connection unsubscribed from a topic, what is published
/// there next does not reach it, nor waits in its buffer.
pub proof fn law_unsubscribed_gets_nothing<P>(
    p0: PoolView<P>,
    p1: PoolView<P>,
    p2: PoolView<P>,
    c: Cid,
    topic: String,
    data: Arc<P>,
    n: Seq<Note<P>>,
)
    requires
        unsubscribed(p0, p1, c, topic),
        published(p1, p2, topic, data, n),
    ensures
        !n.contains(Note::Publish(c@, topic@, *data)),
        p1.pending.contains_key(c@) ==> p2.pending[c@] == p1.pending[c@],
{
    assert(sub_of(p1.topics, topic@, c@) is None);
    assert forall|i: int| 0 <= i < n.len() implies #[trigger] n[i] != Note::Publish(
        c@,
        topic@,
        *data,
    ) by {}
}

/// Law: a disconnected connection keeps no subscription.
pub proof fn law_disconnect_drops_subscriptions<P>(pre: Pool<P>, post: PoolView<P>, c: Cid)
    requires
        pre.wf(),
        pre.pending().contains_key(c@) || pre.conns().contains_key(c@),
        disconnected(pre@, post, c),
    ensures
        forall|t: Seq<char>| #[trigger] sub_of(post.topics, t, c@) is None,
{
    pre.lemma_inv();
    assert forall|t: Seq<char>| #[trigger] sub_of(post.topics, t, c@) is None by {
        if pre.topic_subs().contains_key(t) && pre.topic_subs()[t].contains_key(c@) {
            let s = pre.topic_subs()[t][c@];
            assert(s == Subscription::Pending || s == Subscription::Session);
        }
    }
}

/// Law: subscribing a connection to a topic a second time changes nothing.
pub proof fn law_subscribe_idempotent<P>(
    p0: PoolView<P>,
    p1: PoolView<P>,
    p2: PoolView<P>,
    c: Cid,
    topic: String,
)
    requires
        !(p0.pending.contains_key(c@) && p0.conns.contains_key(c@)),
        subscribed(p0, p1, c, topic),
        subscribed(p1, p2, c, topic),
    ensures
        p2 == p1,
{
    let t = topic@;
    if p0.conns.contains_key(c@) {
        assert(p1.conns[c@].topics.insert(t) =~= p1.conns[c@].topics);
        assert(p2.conns =~= p1.conns);
        assert(p1.topics[t].insert(c@, Subscription::Session) =~= p1.topics[t]);
        assert(p2.topics =~= p1.topics);
    } else if p0.pending.contains_key(c@) {
        assert(p1.pending[c@].topics.insert(t) =~= p1.pending[c@].topics);
            assert(p1.topics[t].insert(c@, Subscription::Pending) =~= p1.topics[t]);
        assert(p2.topics =~= p1.topics);
    }
    assert(p2.pending == p1.pending);
    assert(p2.conns == p1.conns);
    assert(p2.topics == p1.topics);
    assert(p2.sessions == p1.sessions);
    assert(p2.lattices == p1.lattices);
    assert(p2.timeout == p1.timeout);
}

/// Law: a message published to a topic that a connection subscribed to
/// before its session was known reaches the connection once it is
/// associated with a session, whether or not the session can join.
pub proof fn law_buffered_message_delivered<P>(
    p0: PoolView<P>,
    p1: PoolView<P>,
    p2: PoolView<P>,
    p3: PoolView<P>,
    c: Cid,
    topic: String,
    data: Arc<P>,
    n: Seq<Note<P>>,
    session_id: String,
    ts: u64,
    metadata: Arc<P>,
    m: Seq<Note<P>>,
)
    requires
        p0.pending.contains_key(c@),
        !p0.conns.contains_key(c@),
        subscribed(p0, p1, c, topic),
        published(p1, p2, topic, data, n),
        associated(p2, p3, c, session_id, ts, metadata, m),
    ensures
        m.contains(Note::Publish(c@, topic@, *data)),
{
    law_publish_buffers_for_pending(p0, p1, p2, c, topic, data, n);
    let b = p2.pending[c@].buffer;
    let k = b.len() - 1;
    assert(b[k] == (topic@, *data));
    assert(m.take(b.len() as int)[k] == Note::Publish(c@, topic@, *data));
    assert(m[k] == Note::Publish(c@, topic@, *data));
}

/// Law: a connection detached from a lattice namespace is sent nothing by
/// the next update of that namespace.
pub proof fn law_detached_gets_no_update<P>(
    pre: Pool<P>,
    p1: PoolView<P>,
    p2: PoolView<P>,
    c: Cid,
    namespace: String,
    delta: Delta,
    n: Seq<Note<P>>,
)
    requires
        pre.wf(),
        pre.conns().contains_key(c@),
        detached_from_lattice(pre@, p1, c, namespace),
        lattice_updated_by(p1, p2, namespace, delta, n),
    ensures
        forall|k: int| 0 <= k < n.len() ==> note_cid(#[trigger] n[k]) != c@,
{
    pre.lemma_inv();
    let sid = pre.conns()[c@].session_id;
    assert forall|k: int| 0 <= k < n.len() implies note_cid(#[trigger] n[k]) != c@ by {
        let (x, d) = choose|x: Seq<char>, d: u64|
            crate::pool::update_receiver(
                crate::pool::lattice_or_new(p1.lattices, namespace@),
                delta@,
                x,
            ) && #[trigger] lattice_targets(p1.sessions, p1.conns, x, namespace@).contains(d)
                && n[k] == update_note::<P>(
                crate::pool::lattice_or_new(p1.lattices, namespace@),
                delta@,
                namespace@,
                x,
                d,
            );
        assert(note_cid(n[k]) == d);
        if d == c@ {
            assert(p1.sessions.contains_key(x));
            assert(attached(p1.sessions[x].lattices, namespace@).contains(c@));
            if x == sid {
                assert(!attached(p1.sessions[x].lattices, namespace@).contains(c@));
            } else {
                assert(p1.sessions[x] == pre.sessions()[x]);
                assert(pre.sessions()[x].lattices.contains_key(namespace@));
                assert(pre.sessions()[x].lattices[namespace@].contains(c@));
            }
        }
    }
}

/// Law: a lattice update sends a live connection at most one message: the
/// update of its own session, exactly when that session hears of the
/// change and the connection is attached to the namespace; nothing
/// otherwise. A session without private data in the delta hears of the
/// shared rooms that changed.
pub proof fn law_lattice_update_delivery<P>(
    pre: PoolView<P>,
    post: PoolView<P>,
    namespace: String,
    delta: Delta,
    n: Seq<Note<P>>,
    c: Cid,
)
    requires
        pre.conns.contains_key(c@),
        lattice_updated_by(pre, post, namespace, delta, n),
    ensures
        ({
            let l = crate::pool::lattice_or_new(pre.lattices, namespace@);
            let s = pre.conns[c@].session_id;
            let m = update_note::<P>(l, delta@, namespace@, s, c@);
            &&& (crate::pool::update_receiver(l, delta@, s) && lattice_targets(
                pre.sessions,
                pre.conns,
                s,
                namespace@,
            ).contains(c@)) ==> n.contains(m)
            &&& forall|k: int|
                0 <= k < n.len() && note_cid(#[trigger] n[k]) == c@ ==> n[k] == m
                    && crate::pool::update_receiver(l, delta@, s) && lattice_targets(
                    pre.sessions,
                    pre.conns,
                    s,
                    namespace@,
                ).contains(c@)
            &&& forall|i: int, j: int|
                0 <= i < j < n.len() ==> note_cid(#[trigger] n[i]) != note_cid(#[trigger] n[j])
        }),
{
    let l = crate::pool::lattice_or_new(pre.lattices, namespace@);
    let s = pre.conns[c@].session_id;
    assert forall|k: int| 0 <= k < n.len() && note_cid(#[trigger] n[k]) == c@ implies n[k]
        == update_note::<P>(l, delta@, namespace@, s, c@) && crate::pool::update_receiver(
        l,
        delta@,
        s,
    ) && lattice_targets(pre.sessions, pre.conns, s, namespace@).contains(c@) by {
        assert(crate::pool::own_update(pre.sessions, pre.conns, l, delta@, namespace@, n[k]));
    }
}

/// `data` is what session `s` is shown of lattice `l`: exactly the
/// session's private rooms; in each, every counter and set of the shared
/// room of that name with the shared value, and every other counter and set
/// with the private one.
pub open spec fn shows_session_rooms(
    l: LatticeView,
    s: Seq<char>,
    data: Map<Seq<char>, ValuesView>,
) -> bool {
    &&& forall|k: Seq<char>|
        #[trigger] data.contains_key(k) <==> l.private.contains_key(s) && l.private[s].contains_key(
            k,
        )
    &&& forall|k: Seq<char>, x: Seq<char>|
        #![trigger data[k].counters.contains_key(x)]
        #![trigger data[k].counters[x]]
        data.contains_key(k) ==> {
            let mine = l.private[s][k];
            let common = l.shared.contains_key(k) && l.shared[k].counters.contains_key(x);
            &&& data[k].counters.contains_key(x) <==> common || mine.counters.contains_key(x)
            &&& common ==> data[k].counters[x] == l.shared[k].counters[x]
            &&& !common && mine.counters.contains_key(x) ==> data[k].counters[x]
                == mine.counters[x]
        }
    &&& forall|k: Seq<char>, x: Seq<char>|
        #![trigger data[k].sets.contains_key(x)]
        #![trigger data[k].sets[x]]
        data.contains_key(k) ==> {
            let mine = l.private[s][k];
            let common = l.shared.contains_key(k) && l.shared[k].sets.contains_key(x);
            &&& data[k].sets.contains_key(x) <==> common || mine.sets.contains_key(x)
            &&& common ==> data[k].sets[x] == l.shared[k].sets[x]
            &&& !common && mine.sets.contains_key(x) ==> data[k].sets[x] == mine.sets[x]
        }
}

/// Law: what a session is sent of a lattice is its private rooms with the
/// shared values of each room laid over.
pub proof fn law_lattice_from_view(l: LatticeView, s: Seq<char>)
    ensures
        shows_session_rooms(l, s, lattice_from_view(l, s)),
{
}

/// Law: a live connection that attaches to a lattice namespace is sent one
/// message, what its session is shown of that lattice, where the lattice
/// exists, and nothing where it does not.
pub proof fn law_attach_sends_session_rooms<P>(
    pre: PoolView<P>,
    post: PoolView<P>,
    cid: Cid,
    namespace: String,
    n: Seq<Note<P>>,
)
    requires
        pre.conns.contains_key(cid@),
        attached_to_lattice(pre, post, cid, namespace, n),
    ensures
        pre.lattices.contains_key(namespace@) ==> {
            &&& n.len() == 1
            &&& n[0] matches Note::Lattice(c, ns, data) && c == cid@ && ns == namespace@
                && shows_session_rooms(pre.lattices[namespace@], pre.conns[cid@].session_id, data)
        },
        !pre.lattices.contains_key(namespace@) ==> n.len() == 0,
{
    law_lattice_from_view(pre.lattices[namespace@], pre.conns[cid@].session_id);
}

/// Law: a pending connection that joins its session is sent, for each
/// lattice namespace it attached to while pending, what the session is
/// shown of that lattice, after the messages it buffered.
pub proof fn law_associate_sends_session_rooms<P>(
    pre: PoolView<P>,
    post: PoolView<P>,
    conn_id: Cid,
    session_id: String,
    timestamp: u64,
    metadata: Arc<P>,
    n: Seq<Note<P>>,
)
    requires
        can_join(pre, conn_id@),
        associated(pre, post, conn_id, session_id, timestamp, metadata, n),
    ensures
        ({
            let p = pre.pending[conn_id@];
            &&& forall|i: int|
                p.buffer.len() <= i < n.len() ==> (#[trigger] n[i] matches Note::Lattice(
                    c,
                    ns,
                    data,
                ) && c == conn_id@ && p.lattices.contains(ns) && shows_session_rooms(
                    pre.lattices[ns],
                    session_id@,
                    data,
                ))
            &&& forall|ns: Seq<char>|
                #[trigger] p.lattices.contains(ns) ==> exists|i: int|
                    p.buffer.len() <= i < n.len() && (#[trigger] n[i] matches Note::Lattice(
                        c,
                        x,
                        data,
                    ) && c == conn_id@ && x == ns && shows_session_rooms(
                        pre.lattices[ns],
                        session_id@,
                        data,
                    ))
        }),
{
    let p = pre.pending[conn_id@];
    assert forall|i: int| p.buffer.len() <= i < n.len() implies (#[trigger] n[i] matches Note::Lattice(
        c,
        ns,
        data,
    ) && c == conn_id@ && p.lattices.contains(ns) && shows_session_rooms(
        pre.lattices[ns],
        session_id@,
        data,
    )) by {
        if let Note::Lattice(c, ns, data) = n[i] {
            law_lattice_from_view(pre.lattices[ns], session_id@);
        }
    }
    assert forall|ns: Seq<char>| #[trigger] p.lattices.contains(ns) implies exists|i: int|
        p.buffer.len() <= i < n.len() && (#[trigger] n[i] matches Note::Lattice(c, x, data)
            && c == conn_id@ && x == ns && shows_session_rooms(pre.lattices[ns], session_id@, data)) by {
        let m = Note::<P>::Lattice(conn_id@, ns, lattice_from_view(pre.lattices[ns], session_id@));
        assert(n.contains(m));
        let i = choose|i: int| 0 <= i < n.len() && n[i] == m;
        if i < p.buffer.len() {
            assert(n.take(p.buffer.len() as int)[i] == n[i]);
        }
        law_lattice_from_view(pre.lattices[ns], session_id@);
        assert(n[i] == m);
    }
}

/// Law: a live connection that attaches to a lattice namespace is among
/// those that the updates of the namespace for its session go to.
pub proof fn law_attached_gets_updates<P>(
    pre: PoolView<P>,
    post: PoolView<P>,
    cid: Cid,
    namespace: String,
    n: Seq<Note<P>>,
)
    requires
        pre.conns.contains_key(cid@),
        attached_to_lattice(pre, post, cid, namespace, n),
    ensures
        lattice_targets(post.sessions, post.conns, pre.conns[cid@].session_id, namespace@).contains(
            cid@,
        ),
{
    let s = pre.conns[cid@].session_id;
    assert(post.sessions.contains_key(s));
    assert(attached(post.sessions[s].lattices, namespace@).contains(cid@));
    assert(post.conns.contains_key(cid@));
}

} // verus!
