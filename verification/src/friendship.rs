//! Friendship ledger: a symmetric relation between two user ids derived from
//! asymmetric directed edge rows.
//!
//! For any unordered pair of users the set of edges touching it is one of:
//! empty (not friends), exactly one pending edge (a request, directional), or
//! exactly two non-pending edges, one per direction (friends). Every mutating
//! operation validates the current status before touching the rows and rejects
//! calls made from an invalid source status, so the configuration invariant
//! holds in every reachable store.

use vstd::prelude::*;

use crate::store::State;
use crate::store::StoreError;

verus! {

/// One directed relationship row: `uid` requested, `fid` is the target.
/// While `pending` is true the request awaits acceptance by `fid`.
#[derive(Clone, Copy, Debug, PartialEq, Eq, Structural)]
pub struct FriendEdge {
    pub uid: usize,
    pub fid: usize,
    pub pending: bool,
    pub added_at: u64,
}

/// The symmetric relationship between two users, as classified from the edge
/// rows that touch the pair.
#[derive(Clone, Copy, Debug, PartialEq, Eq, Structural)]
pub enum FriendshipStatus {
    NotFriends,
    RequestSent,
    RequestReceived,
    Friends,
}

/// Whether the edge connects `a` and `b`, in either direction.
pub open spec fn touches(e: FriendEdge, a: usize, b: usize) -> bool {
    (e.uid == a && e.fid == b) || (e.uid == b && e.fid == a)
}

/// The subsequence of edges touching the pair `{a, b}`, in row order.
pub open spec fn pair_edges(es: Seq<FriendEdge>, a: usize, b: usize) -> Seq<FriendEdge>
    decreases es.len(),
{
    if es.len() == 0 {
        Seq::empty()
    } else if touches(es.last(), a, b) {
        pair_edges(es.drop_last(), a, b) + seq![es.last()]
    } else {
        pair_edges(es.drop_last(), a, b)
    }
}

/// Status of the pair `(a, b)` from `a`'s point of view: no touching edge
/// means not friends, a single pending edge is a directional request, and
/// any other non-empty configuration counts as friends.
pub open spec fn spec_status(es: Seq<FriendEdge>, a: usize, b: usize) -> FriendshipStatus {
    let t = pair_edges(es, a, b);
    if t.len() == 0 {
        FriendshipStatus::NotFriends
    } else if t.len() == 1 && t[0].pending && t[0].uid == a {
        FriendshipStatus::RequestSent
    } else if t.len() == 1 && t[0].pending && t[0].uid == b {
        FriendshipStatus::RequestReceived
    } else {
        FriendshipStatus::Friends
    }
}

/// `es` with every pending edge directed from `r` to `t` removed.
pub open spec fn without_pending(es: Seq<FriendEdge>, r: usize, t: usize) -> Seq<FriendEdge>
    decreases es.len(),
{
    if es.len() == 0 {
        Seq::empty()
    } else if es.last().pending && es.last().uid == r && es.last().fid == t {
        without_pending(es.drop_last(), r, t)
    } else {
        without_pending(es.drop_last(), r, t) + seq![es.last()]
    }
}

/// `es` with every non-pending edge touching the pair `{a, b}` removed.
pub open spec fn without_nonpending(es: Seq<FriendEdge>, a: usize, b: usize) -> Seq<FriendEdge>
    decreases es.len(),
{
    if es.len() == 0 {
        Seq::empty()
    } else if !es.last().pending && touches(es.last(), a, b) {
        without_nonpending(es.drop_last(), a, b)
    } else {
        without_nonpending(es.drop_last(), a, b) + seq![es.last()]
    }
}

/// Row image of a successful `send_friend_request(uid, fid)` at time `now`.
pub open spec fn send_request_rows(
    es: Seq<FriendEdge>,
    uid: usize,
    fid: usize,
    now: u64,
) -> Seq<FriendEdge> {
    es.push(FriendEdge { uid, fid, pending: true, added_at: now })
}

/// Row image of a successful `accept_friend_request(uid, fid)` at time `now`:
/// the pending edge `fid -> uid` is replaced by the two non-pending edges of
/// an accepted friendship.
pub open spec fn accept_request_rows(
    es: Seq<FriendEdge>,
    uid: usize,
    fid: usize,
    now: u64,
) -> Seq<FriendEdge> {
    without_pending(es, fid, uid)
        .push(FriendEdge { uid: fid, fid: uid, pending: false, added_at: now })
        .push(FriendEdge { uid, fid, pending: false, added_at: now })
}

/// The ids `u` lists as friends: targets of its non-pending outgoing edges,
/// in row order.
pub open spec fn friend_ids(es: Seq<FriendEdge>, u: usize) -> Seq<usize>
    decreases es.len(),
{
    if es.len() == 0 {
        Seq::empty()
    } else if !es.last().pending && es.last().uid == u {
        friend_ids(es.drop_last(), u) + seq![es.last().fid]
    } else {
        friend_ids(es.drop_last(), u)
    }
}

/// A valid edge configuration for one unordered pair: empty, one pending
/// edge, or two non-pending edges pointing in opposite directions.
pub open spec fn pair_ok(t: Seq<FriendEdge>) -> bool {
    ||| t.len() == 0
    ||| (t.len() == 1 && t[0].pending)
    ||| (t.len() == 2 && !t[0].pending && !t[1].pending && t[0].uid != t[1].uid)
}

/// Ledger invariant: no self edges, and every pair of distinct users has a
/// valid edge configuration.
pub open spec fn wf_friends(es: Seq<FriendEdge>) -> bool {
    &&& forall|i: int| 0 <= i < es.len() ==> (#[trigger] es[i]).uid != es[i].fid
    &&& forall|a: usize, b: usize| a != b ==> pair_ok(#[trigger] pair_edges(es, a, b))
}

proof fn lemma_pair_edges_sym(es: Seq<FriendEdge>, a: usize, b: usize)
    ensures
        pair_edges(es, a, b) == pair_edges(es, b, a),
    decreases es.len(),
{
    if es.len() > 0 {
        lemma_pair_edges_sym(es.drop_last(), a, b);
    }
}

proof fn lemma_pair_edges_elems(es: Seq<FriendEdge>, a: usize, b: usize)
    ensures
        forall|k: int|
            0 <= k < pair_edges(es, a, b).len() ==> touches(#[trigger] pair_edges(es, a, b)[k], a, b),
    decreases es.len(),
{
    if es.len() > 0 {
        let d = es.drop_last();
        lemma_pair_edges_elems(d, a, b);
        assert forall|k: int| 0 <= k < pair_edges(es, a, b).len() implies touches(
            #[trigger] pair_edges(es, a, b)[k],
            a,
            b,
        ) by {
            if touches(es.last(), a, b) && k == pair_edges(d, a, b).len() {
                assert(pair_edges(es, a, b)[k] == es.last());
            } else {
                assert(pair_edges(es, a, b)[k] == pair_edges(d, a, b)[k]);
            }
        }
    }
}

proof fn lemma_pair_edges_no_self(es: Seq<FriendEdge>, a: usize, b: usize)
    requires
        forall|i: int| 0 <= i < es.len() ==> (#[trigger] es[i]).uid != es[i].fid,
    ensures
        forall|k: int|
            0 <= k < pair_edges(es, a, b).len() ==> (#[trigger] pair_edges(es, a, b)[k]).uid
                != pair_edges(es, a, b)[k].fid,
    decreases es.len(),
{
    if es.len() > 0 {
        let d = es.drop_last();
        assert(forall|i: int| 0 <= i < d.len() ==> (#[trigger] d[i]).uid != d[i].fid);
        lemma_pair_edges_no_self(d, a, b);
        assert forall|k: int| 0 <= k < pair_edges(es, a, b).len() implies (#[trigger] pair_edges(
            es,
            a,
            b,
        )[k]).uid != pair_edges(es, a, b)[k].fid by {
            if touches(es.last(), a, b) && k == pair_edges(d, a, b).len() {
                assert(pair_edges(es, a, b)[k] == es.last());
                assert(es.last() == es[es.len() - 1]);
            } else {
                assert(pair_edges(es, a, b)[k] == pair_edges(d, a, b)[k]);
            }
        }
    }
}

proof fn lemma_pair_edges_push(es: Seq<FriendEdge>, e: FriendEdge, a: usize, b: usize)
    ensures
        touches(e, a, b) ==> pair_edges(es.push(e), a, b) == pair_edges(es, a, b).push(e),
        !touches(e, a, b) ==> pair_edges(es.push(e), a, b) == pair_edges(es, a, b),
{
    assert(es.push(e).drop_last() =~= es);
    assert(es.push(e).last() == e);
    if touches(e, a, b) {
        assert(pair_edges(es, a, b) + seq![e] =~= pair_edges(es, a, b).push(e));
    }
}

proof fn lemma_without_pending_no_self(es: Seq<FriendEdge>, r: usize, t: usize)
    requires
        forall|i: int| 0 <= i < es.len() ==> (#[trigger] es[i]).uid != es[i].fid,
    ensures
        forall|k: int|
            0 <= k < without_pending(es, r, t).len() ==> (#[trigger] without_pending(es, r, t)[k]).uid
                != without_pending(es, r, t)[k].fid,
    decreases es.len(),
{
    if es.len() > 0 {
        let d = es.drop_last();
        assert(forall|i: int| 0 <= i < d.len() ==> (#[trigger] d[i]).uid != d[i].fid);
        lemma_without_pending_no_self(d, r, t);
        let e = es.last();
        assert forall|k: int| 0 <= k < without_pending(es, r, t).len() implies (
        #[trigger] without_pending(es, r, t)[k]).uid != without_pending(es, r, t)[k].fid by {
            if !(e.pending && e.uid == r && e.fid == t) && k == without_pending(d, r, t).len() {
                assert(without_pending(es, r, t)[k] == e);
                assert(e == es[es.len() - 1]);
            } else {
                assert(without_pending(es, r, t)[k] == without_pending(d, r, t)[k]);
            }
        }
    }
}

proof fn lemma_without_nonpending_no_self(es: Seq<FriendEdge>, a: usize, b: usize)
    requires
        forall|i: int| 0 <= i < es.len() ==> (#[trigger] es[i]).uid != es[i].fid,
    ensures
        forall|k: int|
            0 <= k < without_nonpending(es, a, b).len() ==> (#[trigger] without_nonpending(
                es,
                a,
                b,
            )[k]).uid != without_nonpending(es, a, b)[k].fid,
    decreases es.len(),
{
    if es.len() > 0 {
        let d = es.drop_last();
        assert(forall|i: int| 0 <= i < d.len() ==> (#[trigger] d[i]).uid != d[i].fid);
        lemma_without_nonpending_no_self(d, a, b);
        let e = es.last();
        assert forall|k: int| 0 <= k < without_nonpending(es, a, b).len() implies (
        #[trigger] without_nonpending(es, a, b)[k]).uid != without_nonpending(es, a, b)[k].fid by {
            if !(!e.pending && touches(e, a, b)) && k == without_nonpending(d, a, b).len() {
                assert(without_nonpending(es, a, b)[k] == e);
                assert(e == es[es.len() - 1]);
            } else {
                assert(without_nonpending(es, a, b)[k] == without_nonpending(d, a, b)[k]);
            }
        }
    }
}

/// Filtering to a pair commutes with removing pending edges.
proof fn lemma_pair_edges_without_pending(
    es: Seq<FriendEdge>,
    r: usize,
    t: usize,
    a: usize,
    b: usize,
)
    ensures
        pair_edges(without_pending(es, r, t), a, b) == without_pending(pair_edges(es, a, b), r, t),
    decreases es.len(),
{
    if es.len() > 0 {
        let d = es.drop_last();
        let e = es.last();
        lemma_pair_edges_without_pending(d, r, t, a, b);
        let removed = e.pending && e.uid == r && e.fid == t;
        if removed {
            if touches(e, a, b) {
                assert(pair_edges(es, a, b) == pair_edges(d, a, b) + seq![e]);
                assert((pair_edges(d, a, b) + seq![e]).drop_last() =~= pair_edges(d, a, b));
                assert((pair_edges(d, a, b) + seq![e]).last() == e);
            }
        } else {
            if touches(e, a, b) {
                assert((without_pending(d, r, t) + seq![e]).drop_last() =~= without_pending(
                    d,
                    r,
                    t,
                ));
                assert((without_pending(d, r, t) + seq![e]).last() == e);
                assert((pair_edges(d, a, b) + seq![e]).drop_last() =~= pair_edges(d, a, b));
                assert((pair_edges(d, a, b) + seq![e]).last() == e);
                assert(pair_edges(without_pending(d, r, t) + seq![e], a, b) == pair_edges(
                    without_pending(d, r, t),
                    a,
                    b,
                ) + seq![e]);
            } else {
                assert((without_pending(d, r, t) + seq![e]).drop_last() =~= without_pending(
                    d,
                    r,
                    t,
                ));
                assert((without_pending(d, r, t) + seq![e]).last() == e);
            }
        }
    }
}

/// Filtering to a pair commutes with removing that pair's non-pending edges.
proof fn lemma_pair_edges_without_nonpending(
    es: Seq<FriendEdge>,
    u: usize,
    v: usize,
    a: usize,
    b: usize,
)
    ensures
        pair_edges(without_nonpending(es, u, v), a, b) == without_nonpending(
            pair_edges(es, a, b),
            u,
            v,
        ),
    decreases es.len(),
{
    if es.len() > 0 {
        let d = es.drop_last();
        let e = es.last();
        lemma_pair_edges_without_nonpending(d, u, v, a, b);
        let removed = !e.pending && touches(e, u, v);
        if removed {
            if touches(e, a, b) {
                assert(pair_edges(es, a, b) == pair_edges(d, a, b) + seq![e]);
                assert((pair_edges(d, a, b) + seq![e]).drop_last() =~= pair_edges(d, a, b));
                assert((pair_edges(d, a, b) + seq![e]).last() == e);
            }
        } else {
            if touches(e, a, b) {
                assert((without_nonpending(d, u, v) + seq![e]).drop_last() =~= without_nonpending(
                    d,
                    u,
                    v,
                ));
                assert((without_nonpending(d, u, v) + seq![e]).last() == e);
                assert((pair_edges(d, a, b) + seq![e]).drop_last() =~= pair_edges(d, a, b));
                assert((pair_edges(d, a, b) + seq![e]).last() == e);
                assert(pair_edges(without_nonpending(d, u, v) + seq![e], a, b) == pair_edges(
                    without_nonpending(d, u, v),
                    a,
                    b,
                ) + seq![e]);
            } else {
                assert((without_nonpending(d, u, v) + seq![e]).drop_last() =~= without_nonpending(
                    d,
                    u,
                    v,
                ));
                assert((without_nonpending(d, u, v) + seq![e]).last() == e);
            }
        }
    }
}

/// A valid pair configuration stays valid when pending edges are removed.
proof fn lemma_pair_ok_without_pending(t: Seq<FriendEdge>, r: usize, s: usize)
    requires
        pair_ok(t),
    ensures
        pair_ok(without_pending(t, r, s)),
{
    reveal_with_fuel(without_pending, 4);
    if t.len() == 1 {
        assert(t.drop_last() =~= Seq::<FriendEdge>::empty());
        assert(t.last() == t[0]);
    } else if t.len() == 2 {
        assert(t.drop_last().drop_last() =~= Seq::<FriendEdge>::empty());
        assert(t.drop_last().last() == t[0]);
        assert(t.last() == t[1]);
        assert(without_pending(t, r, s) == Seq::<FriendEdge>::empty() + seq![t[0]] + seq![t[1]]);
        assert(Seq::<FriendEdge>::empty() + seq![t[0]] + seq![t[1]] =~= t);
    }
}

/// Removing pending edges from a well-formed ledger keeps it well-formed.
proof fn lemma_without_pending_preserves_wf(es: Seq<FriendEdge>, r: usize, t: usize)
    requires
        wf_friends(es),
    ensures
        wf_friends(without_pending(es, r, t)),
{
    lemma_without_pending_no_self(es, r, t);
    assert forall|a: usize, b: usize| a != b implies pair_ok(
        #[trigger] pair_edges(without_pending(es, r, t), a, b),
    ) by {
        lemma_pair_edges_without_pending(es, r, t, a, b);
        lemma_pair_ok_without_pending(pair_edges(es, a, b), r, t);
    }
}

/// Removing a pair's non-pending edges from a well-formed ledger keeps it
/// well-formed.
proof fn lemma_without_nonpending_preserves_wf(es: Seq<FriendEdge>, u: usize, v: usize)
    requires
        wf_friends(es),
    ensures
        wf_friends(without_nonpending(es, u, v)),
{
    lemma_without_nonpending_no_self(es, u, v);
    assert forall|a: usize, b: usize| a != b implies pair_ok(
        #[trigger] pair_edges(without_nonpending(es, u, v), a, b),
    ) by {
        lemma_pair_edges_without_nonpending(es, u, v, a, b);
        lemma_pair_edges_elems(es, a, b);
        let t = pair_edges(es, a, b);
        reveal_with_fuel(without_nonpending, 4);
        if t.len() == 1 {
            assert(t.drop_last() =~= Seq::<FriendEdge>::empty());
            assert(t.last() == t[0]);
            // A one-edge configuration is pending, so the removal keeps it.
            assert(without_nonpending(t, u, v) == Seq::<FriendEdge>::empty() + seq![t[0]]);
            assert(Seq::<FriendEdge>::empty() + seq![t[0]] =~= t);
        } else if t.len() == 2 {
            assert(t.drop_last().drop_last() =~= Seq::<FriendEdge>::empty());
            assert(t.drop_last().last() == t[0]);
            assert(t.last() == t[1]);
            // Both edges touch {a, b}, so either both also touch {u, v} (the
            // pairs coincide) and both are removed, or neither is.
            assert(touches(t[0], a, b) && touches(t[1], a, b));
            assert(touches(t[0], u, v) == touches(t[1], u, v));
            if touches(t[0], u, v) {
                assert(without_nonpending(t, u, v) == Seq::<FriendEdge>::empty());
            } else {
                assert(without_nonpending(t, u, v) == Seq::<FriendEdge>::empty() + seq![t[0]]
                    + seq![t[1]]);
                assert(Seq::<FriendEdge>::empty() + seq![t[0]] + seq![t[1]] =~= t);
            }
        }
    }
}

/// Sending a request from a pair with no edges leaves a well-formed ledger in
/// which the sender sees `RequestSent` and the target sees `RequestReceived`.
pub proof fn lemma_send_request_sets_status(es: Seq<FriendEdge>, uid: usize, fid: usize, now: u64)
    requires
        wf_friends(es),
        uid != fid,
        spec_status(es, uid, fid) is NotFriends,
    ensures
        wf_friends(send_request_rows(es, uid, fid, now)),
        spec_status(send_request_rows(es, uid, fid, now), uid, fid) is RequestSent,
        spec_status(send_request_rows(es, uid, fid, now), fid, uid) is RequestReceived,
{
    let e = FriendEdge { uid, fid, pending: true, added_at: now };
    let ns = es.push(e);
    lemma_pair_edges_sym(es, uid, fid);
    lemma_pair_edges_push(es, e, uid, fid);
    lemma_pair_edges_push(es, e, fid, uid);
    assert(pair_edges(ns, uid, fid) == pair_edges(es, uid, fid).push(e));
    assert(pair_edges(ns, uid, fid)[0] == e);
    assert forall|a: usize, b: usize| a != b implies pair_ok(#[trigger] pair_edges(ns, a, b)) by {
        lemma_pair_edges_push(es, e, a, b);
        if touches(e, a, b) {
            lemma_pair_edges_sym(es, a, b);
            assert(pair_edges(es, a, b) == pair_edges(es, uid, fid) || pair_edges(es, a, b)
                == pair_edges(es, fid, uid));
            assert(pair_edges(ns, a, b)[0] == e);
        }
    }
}

/// Cancelling a just-sent request restores `NotFriends` in both directions:
/// the send/cancel round trip leaves the pair unrelated.
pub proof fn lemma_cancel_after_send_round_trip(
    es: Seq<FriendEdge>,
    uid: usize,
    fid: usize,
    now: u64,
)
    requires
        wf_friends(es),
        uid != fid,
        spec_status(es, uid, fid) is NotFriends,
    ensures
        wf_friends(without_pending(send_request_rows(es, uid, fid, now), uid, fid)),
        spec_status(without_pending(send_request_rows(es, uid, fid, now), uid, fid), uid, fid)
            is NotFriends,
        spec_status(without_pending(send_request_rows(es, uid, fid, now), uid, fid), fid, uid)
            is NotFriends,
{
    let e = FriendEdge { uid, fid, pending: true, added_at: now };
    let ns = es.push(e);
    lemma_send_request_sets_status(es, uid, fid, now);
    lemma_without_pending_preserves_wf(ns, uid, fid);
    lemma_pair_edges_without_pending(ns, uid, fid, uid, fid);
    lemma_pair_edges_without_pending(ns, uid, fid, fid, uid);
    lemma_pair_edges_sym(ns, uid, fid);
    let t = pair_edges(ns, uid, fid);
    reveal_with_fuel(without_pending, 3);
    assert(t.drop_last() =~= Seq::<FriendEdge>::empty());
    assert(t.last() == t[0]);
    assert(without_pending(t, uid, fid) == Seq::<FriendEdge>::empty());
}

/// Accepting a received request leaves a well-formed ledger in which both
/// sides see `Friends`.
pub proof fn lemma_accept_request_makes_friends(
    es: Seq<FriendEdge>,
    uid: usize,
    fid: usize,
    now: u64,
)
    requires
        wf_friends(es),
        spec_status(es, uid, fid) is RequestReceived,
    ensures
        wf_friends(accept_request_rows(es, uid, fid, now)),
        spec_status(accept_request_rows(es, uid, fid, now), uid, fid) is Friends,
        spec_status(accept_request_rows(es, uid, fid, now), fid, uid) is Friends,
{
    let e1 = FriendEdge { uid: fid, fid: uid, pending: false, added_at: now };
    let e2 = FriendEdge { uid, fid, pending: false, added_at: now };
    let w = without_pending(es, fid, uid);
    let ns = w.push(e1).push(e2);
    let t = pair_edges(es, uid, fid);
    lemma_pair_edges_elems(es, uid, fid);
    assert(t[0].uid == fid && t[0].fid == uid && t[0].pending);
    lemma_without_pending_preserves_wf(es, fid, uid);
    // After removal the pair has no edges left: its only edge was the
    // pending request, which the removal matches.
    lemma_pair_edges_without_pending(es, fid, uid, uid, fid);
    reveal_with_fuel(without_pending, 3);
    assert(t.drop_last() =~= Seq::<FriendEdge>::empty());
    assert(t.last() == t[0]);
    assert(without_pending(t, fid, uid) == Seq::<FriendEdge>::empty());
    assert(pair_edges(w, uid, fid).len() == 0);
    lemma_pair_edges_push(w, e1, uid, fid);
    lemma_pair_edges_push(w.push(e1), e2, uid, fid);
    assert(pair_edges(ns, uid, fid) == pair_edges(w, uid, fid).push(e1).push(e2));
    assert(pair_edges(ns, uid, fid)[0] == e1);
    assert(pair_edges(ns, uid, fid)[1] == e2);
    lemma_pair_edges_sym(ns, uid, fid);
    assert forall|a: usize, b: usize| a != b implies pair_ok(#[trigger] pair_edges(ns, a, b)) by {
        lemma_pair_edges_push(w, e1, a, b);
        lemma_pair_edges_push(w.push(e1), e2, a, b);
        if touches(e1, a, b) {
            lemma_pair_edges_sym(w, a, b);
            lemma_pair_edges_sym(ns, a, b);
            assert(pair_edges(ns, a, b) == pair_edges(ns, uid, fid) || pair_edges(ns, a, b)
                == pair_edges(ns, fid, uid));
        } else {
            assert(pair_edges(ns, a, b) == pair_edges(w, a, b));
            lemma_pair_edges_without_pending(es, fid, uid, a, b);
            lemma_pair_ok_without_pending(pair_edges(es, a, b), fid, uid);
        }
    }
}

/// Sending a request and having the target accept it makes the two users
/// friends, as seen from both directions.
pub proof fn lemma_send_then_accept_makes_friends(
    es: Seq<FriendEdge>,
    uid: usize,
    fid: usize,
    sent_at: u64,
    accepted_at: u64,
)
    requires
        wf_friends(es),
        uid != fid,
        spec_status(es, uid, fid) is NotFriends,
    ensures
        wf_friends(
            accept_request_rows(send_request_rows(es, uid, fid, sent_at), fid, uid, accepted_at),
        ),
        spec_status(
            accept_request_rows(send_request_rows(es, uid, fid, sent_at), fid, uid, accepted_at),
            uid,
            fid,
        ) is Friends,
        spec_status(
            accept_request_rows(send_request_rows(es, uid, fid, sent_at), fid, uid, accepted_at),
            fid,
            uid,
        ) is Friends,
{
    lemma_send_request_sets_status(es, uid, fid, sent_at);
    lemma_accept_request_makes_friends(
        send_request_rows(es, uid, fid, sent_at),
        fid,
        uid,
        accepted_at,
    );
}

/// Removing a friendship clears the pair back to `NotFriends` in both
/// directions.
pub proof fn lemma_remove_friend_clears(es: Seq<FriendEdge>, uid: usize, fid: usize)
    requires
        wf_friends(es),
        spec_status(es, uid, fid) is Friends,
    ensures
        wf_friends(without_nonpending(es, uid, fid)),
        spec_status(without_nonpending(es, uid, fid), uid, fid) is NotFriends,
        spec_status(without_nonpending(es, uid, fid), fid, uid) is NotFriends,
{
    lemma_without_nonpending_preserves_wf(es, uid, fid);
    lemma_pair_edges_without_nonpending(es, uid, fid, uid, fid);
    lemma_pair_edges_elems(es, uid, fid);
    lemma_pair_edges_no_self(es, uid, fid);
    let t = pair_edges(es, uid, fid);
    if uid == fid {
        // Touching a one-user pair would take a self edge, which the
        // invariant rules out, so the pair has no edges and its status could
        // not have been `Friends`.
        if t.len() > 0 {
            assert(touches(t[0], uid, fid));
            assert(t[0].uid != t[0].fid);
        }
        assert(false);
    } else {
        reveal_with_fuel(without_nonpending, 4);
        assert(pair_ok(t));
        // A one-edge configuration is pending and would classify as a sent
        // or received request, so `Friends` means the two accepted edges.
        if t.len() == 1 {
            assert(touches(t[0], uid, fid));
            assert(false);
        }
        assert(t.len() == 2);
        assert(t.drop_last().drop_last() =~= Seq::<FriendEdge>::empty());
        assert(t.drop_last().last() == t[0]);
        assert(t.last() == t[1]);
        assert(touches(t[0], uid, fid) && touches(t[1], uid, fid));
        assert(without_nonpending(t, uid, fid) == Seq::<FriendEdge>::empty());
        lemma_pair_edges_sym(without_nonpending(es, uid, fid), uid, fid);
    }
}

proof fn lemma_friend_ids_means(es: Seq<FriendEdge>, u: usize, f: usize)
    ensures
        friend_ids(es, u).contains(f) <==> exists|i: int|
            0 <= i < es.len() && !(#[trigger] es[i]).pending && es[i].uid == u && es[i].fid == f,
    decreases es.len(),
{
    if es.len() > 0 {
        let d = es.drop_last();
        lemma_friend_ids_means(d, u, f);
        let e = es.last();
        let fs = friend_ids(es, u);
        let fd = friend_ids(d, u);
        assert(e == es[es.len() - 1]);
        if !e.pending && e.uid == u {
            assert(fs == fd + seq![e.fid]);
            assert(fs[fs.len() - 1] == e.fid);
            if fs.contains(f) {
                let k = choose|k: int| 0 <= k < fs.len() && fs[k] == f;
                if k < fd.len() {
                    assert(fd[k] == f);
                    assert(fd.contains(f));
                    let i = choose|i: int|
                        0 <= i < d.len() && !(#[trigger] d[i]).pending && d[i].uid == u && d[i].fid
                            == f;
                    assert(es[i] == d[i]);
                } else {
                    assert(f == e.fid);
                }
            }
            if exists|i: int|
                0 <= i < es.len() && !(#[trigger] es[i]).pending && es[i].uid == u && es[i].fid
                    == f {
                let i = choose|i: int|
                    0 <= i < es.len() && !(#[trigger] es[i]).pending && es[i].uid == u && es[i].fid
                        == f;
                if i < es.len() - 1 {
                    assert(d[i] == es[i]);
                    let k = choose|k: int| 0 <= k < fd.len() && fd[k] == f;
                    assert(fs[k] == f);
                    assert(fs.contains(f));
                } else {
                    assert(fs.contains(f));
                }
            }
        } else {
            assert(fs == fd);
            if exists|i: int|
                0 <= i < es.len() && !(#[trigger] es[i]).pending && es[i].uid == u && es[i].fid
                    == f {
                let i = choose|i: int|
                    0 <= i < es.len() && !(#[trigger] es[i]).pending && es[i].uid == u && es[i].fid
                        == f;
                assert(i < es.len() - 1);
                assert(d[i] == es[i]);
            }
            if exists|i: int|
                0 <= i < d.len() && !(#[trigger] d[i]).pending && d[i].uid == u && d[i].fid == f {
                let i = choose|i: int|
                    0 <= i < d.len() && !(#[trigger] d[i]).pending && d[i].uid == u && d[i].fid
                        == f;
                assert(es[i] == d[i]);
            }
        }
    }
}

proof fn lemma_pair_edges_sub(es: Seq<FriendEdge>, a: usize, b: usize)
    ensures
        forall|k: int|
            0 <= k < pair_edges(es, a, b).len() ==> es.contains(#[trigger] pair_edges(es, a, b)[k]),
    decreases es.len(),
{
    if es.len() > 0 {
        let d = es.drop_last();
        lemma_pair_edges_sub(d, a, b);
        assert forall|k: int| 0 <= k < pair_edges(es, a, b).len() implies es.contains(
            #[trigger] pair_edges(es, a, b)[k],
        ) by {
            if touches(es.last(), a, b) && k == pair_edges(d, a, b).len() {
                assert(pair_edges(es, a, b)[k] == es[es.len() - 1]);
                assert(es.contains(es[es.len() - 1]));
            } else {
                assert(pair_edges(es, a, b)[k] == pair_edges(d, a, b)[k]);
                assert(d.contains(pair_edges(d, a, b)[k]));
                let i = choose|i: int| 0 <= i < d.len() && d[i] == pair_edges(d, a, b)[k];
                assert(es[i] == d[i]);
            }
        }
    }
}

proof fn lemma_nonpending_edge_in_pair(es: Seq<FriendEdge>, a: usize, b: usize, i0: int)
    requires
        0 <= i0 < es.len(),
        touches(es[i0], a, b),
        !es[i0].pending,
    ensures
        exists|k: int|
            0 <= k < pair_edges(es, a, b).len() && !(#[trigger] pair_edges(es, a, b)[k]).pending,
    decreases es.len(),
{
    let d = es.drop_last();
    if i0 == es.len() - 1 {
        assert(es.last() == es[i0]);
        let t = pair_edges(es, a, b);
        assert(t[t.len() - 1] == es.last());
    } else {
        assert(d[i0] == es[i0]);
        lemma_nonpending_edge_in_pair(d, a, b, i0);
        let k = choose|k: int|
            0 <= k < pair_edges(d, a, b).len() && !(#[trigger] pair_edges(d, a, b)[k]).pending;
        assert(pair_edges(es, a, b)[k] == pair_edges(d, a, b)[k]);
    }
}

/// The friends listing agrees with the status classification: user `u`
/// lists `f` as a friend exactly when the pair stands in the `Friends`
/// state.
pub proof fn lemma_query_friends_means(es: Seq<FriendEdge>, u: usize, f: usize)
    requires
        wf_friends(es),
    ensures
        friend_ids(es, u).contains(f) <==> spec_status(es, u, f) is Friends,
{
    lemma_friend_ids_means(es, u, f);
    lemma_pair_edges_elems(es, u, f);
    lemma_pair_edges_no_self(es, u, f);
    let t = pair_edges(es, u, f);
    if friend_ids(es, u).contains(f) {
        let i = choose|i: int|
            0 <= i < es.len() && !(#[trigger] es[i]).pending && es[i].uid == u && es[i].fid == f;
        lemma_nonpending_edge_in_pair(es, u, f, i);
        let k = choose|k: int| 0 <= k < t.len() && !(#[trigger] t[k]).pending;
        assert(t.len() > 0);
        assert(spec_status(es, u, f) is Friends) by {
            if t.len() == 1 {
                assert(!t[0].pending);
            }
        }
    }
    if spec_status(es, u, f) is Friends {
        if u == f {
            // A one-user pair has no edges, so its status is never
            // `Friends`.
            if t.len() > 0 {
                assert(touches(t[0], u, f));
                assert(t[0].uid != t[0].fid);
            }
            assert(false);
        }
        assert(pair_ok(t));
        if t.len() == 1 {
            assert(touches(t[0], u, f));
            assert(false);
        }
        assert(t.len() == 2);
        let k: int = if t[0].uid == u {
            0
        } else {
            1
        };
        assert(touches(t[0], u, f) && touches(t[1], u, f));
        assert(t[k].uid == u && t[k].fid == f && !t[k].pending);
        lemma_pair_edges_sub(es, u, f);
        assert(es.contains(t[k]));
        let i = choose|i: int| 0 <= i < es.len() && es[i] == t[k];
        assert(friend_ids(es, u).contains(f));
    }
}

impl State {
    /// Classifies the relationship between `uid` and `fid` from the edge
    /// rows touching the pair. Pure read.
    #[verifier::loop_isolation(false)]
    pub fn get_friendship_status(&self, uid: usize, fid: usize) -> (st: FriendshipStatus)
        ensures
            st == spec_status(self.edges(), uid, fid),
    {
        let n = self.friends.len();
        let mut i: usize = 0;
        let mut count: usize = 0;
        let mut first: Option<FriendEdge> = None;
        while i < n
            invariant
                i <= n,
                count as int == pair_edges(self.friends@.take(i as int), uid, fid).len(),
                count <= i,
                count == 0 <==> first is None,
                count > 0 ==> first == Some(pair_edges(self.friends@.take(i as int), uid, fid)[0]),
            decreases n - i,
        {
            let e = self.friends[i];
            proof {
                let es = self.friends@;
                assert(es.take(i as int + 1).drop_last() =~= es.take(i as int));
                assert(es.take(i as int + 1).last() == es[i as int]);
            }
            if (e.uid == uid && e.fid == fid) || (e.uid == fid && e.fid == uid) {
                if count == 0 {
                    first = Some(e);
                }
                count = count + 1;
            }
            i = i + 1;
        }
        proof {
            assert(self.friends@.take(n as int) =~= self.friends@);
        }
        if count == 0 {
            FriendshipStatus::NotFriends
        } else if count == 1 {
            let e = first.unwrap();
            if e.pending && e.uid == uid {
                FriendshipStatus::RequestSent
            } else if e.pending && e.uid == fid {
                FriendshipStatus::RequestReceived
            } else {
                FriendshipStatus::Friends
            }
        } else {
            FriendshipStatus::Friends
        }
    }

    /// Sends a friend request from `uid` to `fid` at time `now`. The call is
    /// validated against the current status: it succeeds exactly when the
    /// two users are distinct and unrelated, and otherwise refuses without
    /// touching any row.
    pub fn send_friend_request(&mut self, uid: usize, fid: usize, now: u64) -> (r: Result<
        (),
        StoreError,
    >)
        requires
            old(self).wf(),
        ensures
            final(self).wf(),
            r is Ok <==> (uid != fid && spec_status(old(self).edges(), uid, fid) is NotFriends),
            r is Ok ==> final(self).edges() == send_request_rows(old(self).edges(), uid, fid, now),
            !(r is Ok) ==> r == Err::<(), StoreError>(StoreError::PreconditionViolation)
                && final(self).edges() == old(self).edges(),
            final(self).plays() == old(self).plays(),
            final(self).stock() == old(self).stock(),
            final(self).catalog() == old(self).catalog(),
            final(self).ledger() == old(self).ledger(),
    {
        let st = self.get_friendship_status(uid, fid);
        if uid != fid && st == FriendshipStatus::NotFriends {
            proof {
                lemma_send_request_sets_status(self.friends@, uid, fid, now);
            }
            self.friends.push(FriendEdge { uid, fid, pending: true, added_at: now });
            Ok(())
        } else {
            Err(StoreError::PreconditionViolation)
        }
    }

    /// `uid` accepts the pending request originally sent by `fid` at time
    /// `now`: the pending edge is replaced by the two non-pending edges of
    /// an accepted friendship, in one atomic update. The call succeeds
    /// exactly when such a pending request exists, and otherwise refuses
    /// without touching any row.
    #[verifier::loop_isolation(false)]
    pub fn accept_friend_request(&mut self, uid: usize, fid: usize, now: u64) -> (r: Result<
        (),
        StoreError,
    >)
        requires
            old(self).wf(),
        ensures
            final(self).wf(),
            r is Ok <==> spec_status(old(self).edges(), uid, fid) is RequestReceived,
            r is Ok ==> final(self).edges() == accept_request_rows(old(self).edges(), uid, fid, now),
            !(r is Ok) ==> r == Err::<(), StoreError>(StoreError::PreconditionViolation)
                && final(self).edges() == old(self).edges(),
            final(self).plays() == old(self).plays(),
            final(self).stock() == old(self).stock(),
            final(self).catalog() == old(self).catalog(),
            final(self).ledger() == old(self).ledger(),
    {
        let st = self.get_friendship_status(uid, fid);
        if st == FriendshipStatus::RequestReceived {
            proof {
                lemma_accept_request_makes_friends(self.friends@, uid, fid, now);
            }
            let n = self.friends.len();
            let mut kept: Vec<FriendEdge> = Vec::new();
            let mut i: usize = 0;
            while i < n
                invariant
                    i <= n,
                    kept@ == without_pending(self.friends@.take(i as int), fid, uid),
                decreases n - i,
            {
                let e = self.friends[i];
                proof {
                    let es = self.friends@;
                    assert(es.take(i as int + 1).drop_last() =~= es.take(i as int));
                    assert(es.take(i as int + 1).last() == es[i as int]);
                }
                if !(e.pending && e.uid == fid && e.fid == uid) {
                    proof {
                        assert(kept@.push(e) =~= kept@ + seq![e]);
                    }
                    kept.push(e);
                }
                i = i + 1;
            }
            proof {
                assert(self.friends@.take(n as int) =~= self.friends@);
            }
            kept.push(FriendEdge { uid: fid, fid: uid, pending: false, added_at: now });
            kept.push(FriendEdge { uid, fid, pending: false, added_at: now });
            self.friends = kept;
            Ok(())
        } else {
            Err(StoreError::PreconditionViolation)
        }
    }

    /// `uid` declines the pending request sent by `fid`: the pending edge
    /// `fid -> uid` is deleted. A no-op, not an error, when no such request
    /// exists.
    #[verifier::loop_isolation(false)]
    pub fn decline_friend_request(&mut self, uid: usize, fid: usize) -> (r: Result<(), StoreError>)
        requires
            old(self).wf(),
        ensures
            final(self).wf(),
            r is Ok,
            final(self).edges() == without_pending(old(self).edges(), fid, uid),
            final(self).plays() == old(self).plays(),
            final(self).stock() == old(self).stock(),
            final(self).catalog() == old(self).catalog(),
            final(self).ledger() == old(self).ledger(),
    {
        proof {
            lemma_without_pending_preserves_wf(self.friends@, fid, uid);
        }
        let n = self.friends.len();
        let mut kept: Vec<FriendEdge> = Vec::new();
        let mut i: usize = 0;
        while i < n
            invariant
                i <= n,
                kept@ == without_pending(self.friends@.take(i as int), fid, uid),
            decreases n - i,
        {
            let e = self.friends[i];
            proof {
                let es = self.friends@;
                assert(es.take(i as int + 1).drop_last() =~= es.take(i as int));
                assert(es.take(i as int + 1).last() == es[i as int]);
            }
            if !(e.pending && e.uid == fid && e.fid == uid) {
                proof {
                    assert(kept@.push(e) =~= kept@ + seq![e]);
                }
                kept.push(e);
            }
            i = i + 1;
        }
        proof {
            assert(self.friends@.take(n as int) =~= self.friends@);
        }
        self.friends = kept;
        Ok(())
    }

    /// `uid` cancels its own pending request to `fid`: the pending edge
    /// `uid -> fid` is deleted. A no-op, not an error, when no such request
    /// exists.
    #[verifier::loop_isolation(false)]
    pub fn cancel_friend_request(&mut self, uid: usize, fid: usize) -> (r: Result<(), StoreError>)
        requires
            old(self).wf(),
        ensures
            final(self).wf(),
            r is Ok,
            final(self).edges() == without_pending(old(self).edges(), uid, fid),
            final(self).plays() == old(self).plays(),
            final(self).stock() == old(self).stock(),
            final(self).catalog() == old(self).catalog(),
            final(self).ledger() == old(self).ledger(),
    {
        proof {
            lemma_without_pending_preserves_wf(self.friends@, uid, fid);
        }
        let n = self.friends.len();
        let mut kept: Vec<FriendEdge> = Vec::new();
        let mut i: usize = 0;
        while i < n
            invariant
                i <= n,
                kept@ == without_pending(self.friends@.take(i as int), uid, fid),
            decreases n - i,
        {
            let e = self.friends[i];
            proof {
                let es = self.friends@;
                assert(es.take(i as int + 1).drop_last() =~= es.take(i as int));
                assert(es.take(i as int + 1).last() == es[i as int]);
            }
            if !(e.pending && e.uid == uid && e.fid == fid) {
                proof {
                    assert(kept@.push(e) =~= kept@ + seq![e]);
                }
                kept.push(e);
            }
            i = i + 1;
        }
        proof {
            assert(self.friends@.take(n as int) =~= self.friends@);
        }
        self.friends = kept;
        Ok(())
    }

    /// Removes the friendship between `uid` and `fid`: both non-pending
    /// edges of the pair are deleted. Deletes nothing when the pair is not
    /// in the friends state; a pending request is left untouched.
    #[verifier::loop_isolation(false)]
    pub fn remove_friend(&mut self, uid: usize, fid: usize) -> (r: Result<(), StoreError>)
        requires
            old(self).wf(),
        ensures
            final(self).wf(),
            r is Ok,
            final(self).edges() == without_nonpending(old(self).edges(), uid, fid),
            final(self).plays() == old(self).plays(),
            final(self).stock() == old(self).stock(),
            final(self).catalog() == old(self).catalog(),
            final(self).ledger() == old(self).ledger(),
    {
        proof {
            lemma_without_nonpending_preserves_wf(self.friends@, uid, fid);
        }
        let n = self.friends.len();
        let mut kept: Vec<FriendEdge> = Vec::new();
        let mut i: usize = 0;
        while i < n
            invariant
                i <= n,
                kept@ == without_nonpending(self.friends@.take(i as int), uid, fid),
            decreases n - i,
        {
            let e = self.friends[i];
            proof {
                let es = self.friends@;
                assert(es.take(i as int + 1).drop_last() =~= es.take(i as int));
                assert(es.take(i as int + 1).last() == es[i as int]);
            }
            if !(!e.pending && ((e.uid == uid && e.fid == fid) || (e.uid == fid && e.fid == uid))) {
                proof {
                    assert(kept@.push(e) =~= kept@ + seq![e]);
                }
                kept.push(e);
            }
            i = i + 1;
        }
        proof {
            assert(self.friends@.take(n as int) =~= self.friends@);
        }
        self.friends = kept;
        Ok(())
    }

    /// The ids `uid` lists as friends, in row order. In a well-formed store
    /// the listing holds exactly the users standing in the `Friends` state
    /// with `uid`. Pure read.
    #[verifier::loop_isolation(false)]
    pub fn query_friends(&self, uid: usize) -> (r: Vec<usize>)
        ensures
            r@ == friend_ids(self.edges(), uid),
            self.wf() ==> forall|f: usize|
                #[trigger] r@.contains(f) <==> spec_status(self.edges(), uid, f) is Friends,
    {
        proof {
            if self.wf() {
                assert forall|f: usize| #[trigger] friend_ids(self.edges(), uid).contains(f)
                    <==> spec_status(self.edges(), uid, f) is Friends by {
                    lemma_query_friends_means(self.edges(), uid, f);
                }
            }
        }
        let n = self.friends.len();
        let mut out: Vec<usize> = Vec::new();
        let mut i: usize = 0;
        while i < n
            invariant
                i <= n,
                out@ == friend_ids(self.friends@.take(i as int), uid),
            decreases n - i,
        {
            let e = self.friends[i];
            proof {
                let es = self.friends@;
                assert(es.take(i as int + 1).drop_last() =~= es.take(i as int));
                assert(es.take(i as int + 1).last() == es[i as int]);
            }
            if !e.pending && e.uid == uid {
                proof {
                    assert(out@.push(e.fid) =~= out@ + seq![e.fid]);
                }
                out.push(e.fid);
            }
            i = i + 1;
        }
        proof {
            assert(self.friends@.take(n as int) =~= self.friends@);
        }
        out
    }
}

} // verus!
