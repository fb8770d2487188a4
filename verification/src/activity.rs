//! Play-session tracker: timed intervals per (user, game) pair.
//!
//! A session row with an unset duration is an open, in-progress interval.
//! The tracker enforces what the row shape alone does not: at most one open
//! session per pair, and the open session (if any) is the pair's most recent
//! row. Timestamps are caller-supplied ticks from a non-decreasing clock, so
//! rows are kept in non-decreasing start order.

use vstd::prelude::*;

use crate::store::State;
use crate::store::StoreError;

verus! {

/// One play interval of user `uid` in game `gid`. `duration: None` marks an
/// open (in-progress) session; a closed session stores its length in ticks.
#[derive(Clone, Copy, Debug, PartialEq, Eq, Structural)]
pub struct PlaySession {
    pub uid: usize,
    pub gid: usize,
    pub startplay_at: u64,
    pub duration: Option<u64>,
}

/// Whether the session row belongs to the pair `(u, g)`.
pub open spec fn session_matches(s: PlaySession, u: usize, g: usize) -> bool {
    s.uid == u && s.gid == g
}

/// Whether the pair `(u, g)` has an open session row.
pub open spec fn has_open(ss: Seq<PlaySession>, u: usize, g: usize) -> bool {
    exists|i: int|
        0 <= i < ss.len() && session_matches(#[trigger] ss[i], u, g) && ss[i].duration is None
}

/// The most recent session of the pair `(u, g)`: the last matching row.
/// Rows are kept in non-decreasing start order, so the last matching row has
/// the greatest start time; among equal start times the later row wins.
pub open spec fn latest_session(ss: Seq<PlaySession>, u: usize, g: usize) -> Option<PlaySession>
    decreases ss.len(),
{
    if ss.len() == 0 {
        None
    } else if session_matches(ss.last(), u, g) {
        Some(ss.last())
    } else {
        latest_session(ss.drop_last(), u, g)
    }
}

/// Whether the pair's most recent session exists and is still open.
pub open spec fn spec_is_playing(ss: Seq<PlaySession>, u: usize, g: usize) -> bool {
    match latest_session(ss, u, g) {
        Some(s) => s.duration is None,
        None => false,
    }
}

/// Row image of `start_playing(u, g)` at time `now`: a no-op while a session
/// is already open, otherwise one appended open row.
pub open spec fn start_rows(ss: Seq<PlaySession>, u: usize, g: usize, now: u64) -> Seq<
    PlaySession,
> {
    if has_open(ss, u, g) {
        ss
    } else {
        ss.push(PlaySession { uid: u, gid: g, startplay_at: now, duration: None })
    }
}

/// Row image of `stop_playing(u, g)` at time `now`: every open row of the
/// pair (at most one in a well-formed store) gets its duration stamped; all
/// other rows are untouched.
pub open spec fn stop_rows(ss: Seq<PlaySession>, u: usize, g: usize, now: u64) -> Seq<
    PlaySession,
> {
    Seq::new(
        ss.len(),
        |i: int|
            if session_matches(ss[i], u, g) && ss[i].duration is None {
                PlaySession {
                    uid: ss[i].uid,
                    gid: ss[i].gid,
                    startplay_at: ss[i].startplay_at,
                    duration: Some((now - ss[i].startplay_at) as u64),
                }
            } else {
                ss[i]
            },
    )
}

/// The sessions of user `u`, in row order (oldest first).
pub open spec fn user_sessions(ss: Seq<PlaySession>, u: usize) -> Seq<PlaySession>
    decreases ss.len(),
{
    if ss.len() == 0 {
        Seq::empty()
    } else if ss.last().uid == u {
        user_sessions(ss.drop_last(), u) + seq![ss.last()]
    } else {
        user_sessions(ss.drop_last(), u)
    }
}

/// Tracker invariant: start times are non-decreasing in row order, and no row
/// of a pair follows an open row of the same pair, so each pair has at most
/// one open session and that session is the pair's most recent row.
pub open spec fn wf_sessions(ss: Seq<PlaySession>) -> bool {
    &&& forall|i: int, j: int|
        0 <= i < j < ss.len() ==> (#[trigger] ss[i]).startplay_at <= (#[trigger] ss[j]).startplay_at
    &&& forall|i: int, j: int|
        0 <= i < j < ss.len() && (#[trigger] ss[i]).uid == (#[trigger] ss[j]).uid && ss[i].gid
            == ss[j].gid ==> ss[i].duration is Some
}

/// In a well-formed tracker the most-recent-row reading of "is playing"
/// agrees with "some open session exists".
pub proof fn lemma_playing_iff_open(ss: Seq<PlaySession>, u: usize, g: usize)
    requires
        wf_sessions(ss),
    ensures
        spec_is_playing(ss, u, g) <==> has_open(ss, u, g),
    decreases ss.len(),
{
    if ss.len() > 0 {
        let d = ss.drop_last();
        let s = ss.last();
        assert(wf_sessions(d)) by {
            assert(forall|i: int| 0 <= i < d.len() ==> d[i] == ss[i]);
        }
        if session_matches(s, u, g) {
            if s.duration is None {
                assert(has_open(ss, u, g)) by {
                    assert(session_matches(ss[ss.len() - 1], u, g));
                }
            } else {
                assert forall|i: int|
                    0 <= i < ss.len() && session_matches(#[trigger] ss[i], u, g) implies ss[i].duration
                    is Some by {
                    if i < ss.len() - 1 {
                        assert(ss[i].uid == ss[ss.len() - 1].uid && ss[i].gid == ss[ss.len()
                            - 1].gid);
                    }
                }
            }
        } else {
            lemma_playing_iff_open(d, u, g);
            if has_open(ss, u, g) {
                let i = choose|i: int|
                    0 <= i < ss.len() && session_matches(#[trigger] ss[i], u, g) && ss[i].duration
                        is None;
                assert(i < ss.len() - 1);
                assert(d[i] == ss[i]);
                assert(has_open(d, u, g));
            }
            if has_open(d, u, g) {
                let i = choose|i: int|
                    0 <= i < d.len() && session_matches(#[trigger] d[i], u, g) && d[i].duration
                        is None;
                assert(ss[i] == d[i]);
                assert(has_open(ss, u, g));
            }
        }
    }
}

proof fn lemma_user_sessions_bounded(ss: Seq<PlaySession>, u: usize, bound: u64)
    requires
        forall|i: int| 0 <= i < ss.len() ==> (#[trigger] ss[i]).startplay_at <= bound,
    ensures
        forall|k: int|
            0 <= k < user_sessions(ss, u).len() ==> (#[trigger] user_sessions(ss, u)[k]).startplay_at
                <= bound,
    decreases ss.len(),
{
    if ss.len() > 0 {
        let d = ss.drop_last();
        assert(forall|i: int| 0 <= i < d.len() ==> (#[trigger] d[i]).startplay_at <= bound);
        lemma_user_sessions_bounded(d, u, bound);
        assert forall|k: int| 0 <= k < user_sessions(ss, u).len() implies (#[trigger] user_sessions(
            ss,
            u,
        )[k]).startplay_at <= bound by {
            if ss.last().uid == u && k == user_sessions(d, u).len() {
                assert(user_sessions(ss, u)[k] == ss.last());
                assert(ss.last() == ss[ss.len() - 1]);
            } else {
                assert(user_sessions(ss, u)[k] == user_sessions(d, u)[k]);
            }
        }
    }
}

/// Filtering to one user preserves the non-decreasing start order.
pub proof fn lemma_user_sessions_sorted(ss: Seq<PlaySession>, u: usize)
    requires
        forall|i: int, j: int|
            0 <= i < j < ss.len() ==> (#[trigger] ss[i]).startplay_at
                <= (#[trigger] ss[j]).startplay_at,
    ensures
        forall|i: int, j: int|
            0 <= i < j < user_sessions(ss, u).len() ==> (#[trigger] user_sessions(ss, u)[i]).startplay_at
                <= (#[trigger] user_sessions(ss, u)[j]).startplay_at,
    decreases ss.len(),
{
    if ss.len() > 0 {
        let d = ss.drop_last();
        assert(forall|i: int, j: int|
            0 <= i < j < d.len() ==> (#[trigger] d[i]).startplay_at
                <= (#[trigger] d[j]).startplay_at);
        lemma_user_sessions_sorted(d, u);
        assert(forall|i: int| 0 <= i < d.len() ==> (#[trigger] d[i]).startplay_at <= ss.last().startplay_at);
        lemma_user_sessions_bounded(d, u, ss.last().startplay_at);
        assert forall|i: int, j: int|
            0 <= i < j < user_sessions(ss, u).len() implies (#[trigger] user_sessions(
            ss,
            u,
        )[i]).startplay_at <= (#[trigger] user_sessions(ss, u)[j]).startplay_at by {
            if ss.last().uid == u && j == user_sessions(d, u).len() {
                assert(user_sessions(ss, u)[j] == ss.last());
                assert(user_sessions(ss, u)[i] == user_sessions(d, u)[i]);
            } else {
                assert(user_sessions(ss, u)[i] == user_sessions(d, u)[i]);
                assert(user_sessions(ss, u)[j] == user_sessions(d, u)[j]);
            }
        }
    }
}

/// After `start_playing` the pair is playing: either a session was already
/// open, or the appended row is now the pair's open, most recent session.
pub proof fn lemma_start_then_playing(ss: Seq<PlaySession>, u: usize, g: usize, now: u64)
    requires
        wf_sessions(ss),
        forall|i: int| 0 <= i < ss.len() ==> (#[trigger] ss[i]).startplay_at <= now,
    ensures
        wf_sessions(start_rows(ss, u, g, now)),
        spec_is_playing(start_rows(ss, u, g, now), u, g),
        has_open(start_rows(ss, u, g, now), u, g),
{
    if has_open(ss, u, g) {
        lemma_playing_iff_open(ss, u, g);
    } else {
        let s = PlaySession { uid: u, gid: g, startplay_at: now, duration: None };
        let ns = ss.push(s);
        assert forall|i: int, j: int|
            0 <= i < j < ns.len() implies (#[trigger] ns[i]).startplay_at
            <= (#[trigger] ns[j]).startplay_at by {
            if j < ns.len() - 1 {
                assert(ns[i] == ss[i] && ns[j] == ss[j]);
            } else {
                assert(ns[i] == ss[i]);
            }
        }
        assert forall|i: int, j: int|
            0 <= i < j < ns.len() && (#[trigger] ns[i]).uid == (#[trigger] ns[j]).uid && ns[i].gid
                == ns[j].gid implies ns[i].duration is Some by {
            if j < ns.len() - 1 {
                assert(ns[i] == ss[i] && ns[j] == ss[j]);
            } else {
                assert(ns[i] == ss[i]);
                assert(session_matches(ss[i], u, g));
            }
        }
        assert(session_matches(ns[ns.len() - 1], u, g));
        lemma_playing_iff_open(ns, u, g);
    }
}

/// After `stop_playing` the pair is no longer playing, and the session that
/// was open (if any) carries the non-negative duration `now` minus its
/// start.
pub proof fn lemma_stop_then_not_playing(ss: Seq<PlaySession>, u: usize, g: usize, now: u64)
    requires
        wf_sessions(ss),
        forall|i: int| 0 <= i < ss.len() ==> (#[trigger] ss[i]).startplay_at <= now,
    ensures
        wf_sessions(stop_rows(ss, u, g, now)),
        !spec_is_playing(stop_rows(ss, u, g, now), u, g),
        !has_open(stop_rows(ss, u, g, now), u, g),
        forall|i: int|
            0 <= i < ss.len() && session_matches(#[trigger] ss[i], u, g) && ss[i].duration is None
                ==> stop_rows(ss, u, g, now)[i].duration == Some((now - ss[i].startplay_at) as u64)
                && now >= ss[i].startplay_at,
{
    let ns = stop_rows(ss, u, g, now);
    assert forall|i: int, j: int|
        0 <= i < j < ns.len() implies (#[trigger] ns[i]).startplay_at
        <= (#[trigger] ns[j]).startplay_at by {
        assert(ns[i].startplay_at == ss[i].startplay_at);
        assert(ns[j].startplay_at == ss[j].startplay_at);
    }
    assert forall|i: int, j: int|
        0 <= i < j < ns.len() && (#[trigger] ns[i]).uid == (#[trigger] ns[j]).uid && ns[i].gid
            == ns[j].gid implies ns[i].duration is Some by {
        assert(ns[i].uid == ss[i].uid && ns[i].gid == ss[i].gid);
        assert(ns[j].uid == ss[j].uid && ns[j].gid == ss[j].gid);
        assert(ss[i].duration is Some);
    }
    assert forall|i: int|
        0 <= i < ns.len() && session_matches(#[trigger] ns[i], u, g) implies ns[i].duration
        is Some by {
        assert(ns[i].uid == ss[i].uid && ns[i].gid == ss[i].gid);
    }
    lemma_playing_iff_open(ns, u, g);
}

impl State {
    /// Opens a play session for `(uid, gid)` at time `now`. Idempotent: a
    /// second call while a session is already open is a no-op, not an error,
    /// so at most one open session per pair ever exists. `now` must not lie
    /// before any recorded start (the clock is non-decreasing).
    pub fn start_playing(&mut self, uid: usize, gid: usize, now: u64) -> (r: Result<(), StoreError>)
        requires
            old(self).wf(),
            forall|i: int|
                0 <= i < old(self).plays().len() ==> (#[trigger] old(self).plays()[i]).startplay_at
                    <= now,
        ensures
            final(self).wf(),
            r is Ok,
            final(self).plays() == start_rows(old(self).plays(), uid, gid, now),
            final(self).edges() == old(self).edges(),
            final(self).stock() == old(self).stock(),
            final(self).catalog() == old(self).catalog(),
            final(self).ledger() == old(self).ledger(),
    {
        proof {
            lemma_start_then_playing(self.sessions@, uid, gid, now);
        }
        if self.is_playing(uid, gid) {
            return Ok(());
        }
        let s = PlaySession { uid, gid, startplay_at: now, duration: None };
        self.sessions.push(s);
        Ok(())
    }

    /// Closes the open session of `(uid, gid)` at time `now`, stamping its
    /// duration as `now` minus its start. A no-op, not an error, when no
    /// open session exists: no row is touched. `now` must not lie before any
    /// recorded start (the clock is non-decreasing).
    #[verifier::loop_isolation(false)]
    pub fn stop_playing(&mut self, uid: usize, gid: usize, now: u64) -> (r: Result<(), StoreError>)
        requires
            old(self).wf(),
            forall|i: int|
                0 <= i < old(self).plays().len() ==> (#[trigger] old(self).plays()[i]).startplay_at
                    <= now,
        ensures
            final(self).wf(),
            r is Ok,
            final(self).plays() == stop_rows(old(self).plays(), uid, gid, now),
            !has_open(old(self).plays(), uid, gid) ==> final(self).plays() == old(self).plays(),
            final(self).edges() == old(self).edges(),
            final(self).stock() == old(self).stock(),
            final(self).catalog() == old(self).catalog(),
            final(self).ledger() == old(self).ledger(),
    {
        let n = self.sessions.len();
        let mut i: usize = 0;
        while i < n
            invariant
                i <= n,
                self.sessions@.len() == n,
                forall|j: int| i <= j < n ==> self.sessions@[j] == old(self).plays()[j],
                forall|j: int|
                    0 <= j < i ==> self.sessions@[j] == stop_rows(old(self).plays(), uid, gid, now)[j],
                self.edges() == old(self).edges(),
                self.stock() == old(self).stock(),
                self.catalog() == old(self).catalog(),
                self.ledger() == old(self).ledger(),
            decreases n - i,
        {
            let s = self.sessions[i];
            proof {
                assert(self.sessions@[i as int] == old(self).plays()[i as int]);
                assert(old(self).plays()[i as int].startplay_at <= now);
            }
            if s.uid == uid && s.gid == gid && s.duration.is_none() {
                let d = now - s.startplay_at;
                self.sessions[i] = PlaySession { uid, gid, startplay_at: s.startplay_at, duration: Some(d) };
            }
            i = i + 1;
        }
        proof {
            let os = old(self).plays();
            assert(self.sessions@ =~= stop_rows(os, uid, gid, now));
            lemma_stop_then_not_playing(os, uid, gid, now);
            let ns = self.sessions@;
            if !has_open(os, uid, gid) {
                assert forall|j: int| 0 <= j < ns.len() implies ns[j] == os[j] by {
                    if session_matches(os[j], uid, gid) && os[j].duration is None {
                        assert(has_open(os, uid, gid));
                    }
                }
                assert(ns =~= os);
            }
        }
        Ok(())
    }

    /// Whether the most recent session of `(uid, gid)` is open. In a
    /// well-formed store this is exactly "an open session exists". Pure
    /// read.
    #[verifier::loop_isolation(false)]
    pub fn is_playing(&self, uid: usize, gid: usize) -> (r: bool)
        ensures
            r == spec_is_playing(self.plays(), uid, gid),
            wf_sessions(self.plays()) ==> r == has_open(self.plays(), uid, gid),
    {
        let n = self.sessions.len();
        let mut i: usize = 0;
        let mut latest: Option<PlaySession> = None;
        while i < n
            invariant
                i <= n,
                latest == latest_session(self.sessions@.take(i as int), uid, gid),
            decreases n - i,
        {
            let s = self.sessions[i];
            proof {
                let ss = self.sessions@;
                assert(ss.take(i as int + 1).drop_last() =~= ss.take(i as int));
                assert(ss.take(i as int + 1).last() == ss[i as int]);
            }
            if s.uid == uid && s.gid == gid {
                latest = Some(s);
            }
            i = i + 1;
        }
        proof {
            assert(self.sessions@.take(n as int) =~= self.sessions@);
            if wf_sessions(self.sessions@) {
                lemma_playing_iff_open(self.sessions@, uid, gid);
            }
        }
        match latest {
            Some(s) => s.duration.is_none(),
            None => false,
        }
    }

    /// The play history of `uid`: all of the user's sessions, most recent
    /// first. Pure read.
    #[verifier::loop_isolation(false)]
    pub fn query_game_activity(&self, uid: usize) -> (r: Vec<PlaySession>)
        ensures
            r@ == user_sessions(self.plays(), uid).reverse(),
            wf_sessions(self.plays()) ==> forall|i: int, j: int|
                0 <= i < j < r@.len() ==> (#[trigger] r@[i]).startplay_at
                    >= (#[trigger] r@[j]).startplay_at,
    {
        let n = self.sessions.len();
        let mut picked: Vec<PlaySession> = Vec::new();
        let mut i: usize = 0;
        while i < n
            invariant
                i <= n,
                picked@ == user_sessions(self.sessions@.take(i as int), uid),
            decreases n - i,
        {
            let s = self.sessions[i];
            proof {
                let ss = self.sessions@;
                assert(ss.take(i as int + 1).drop_last() =~= ss.take(i as int));
                assert(ss.take(i as int + 1).last() == ss[i as int]);
            }
            if s.uid == uid {
                proof {
                    assert(picked@.push(s) =~= picked@ + seq![s]);
                }
                picked.push(s);
            }
            i = i + 1;
        }
        proof {
            assert(self.sessions@.take(n as int) =~= self.sessions@);
        }
        let m = picked.len();
        let mut out: Vec<PlaySession> = Vec::new();
        let mut k: usize = 0;
        while k < m
            invariant
                k <= m,
                out@.len() == k,
                forall|j: int| 0 <= j < k ==> out@[j] == picked@[m - 1 - j],
            decreases m - k,
        {
            out.push(picked[m - 1 - k]);
            k = k + 1;
        }
        proof {
            assert(out@ =~= user_sessions(self.plays(), uid).reverse());
            if wf_sessions(self.plays()) {
                lemma_user_sessions_sorted(self.plays(), uid);
            }
        }
        out
    }
}

} // verus!
