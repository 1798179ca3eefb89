//! The session: handle assignment, parameter synchronization, the per-tick
//! advance, and rollback.
//!
//! A session owns one confirmed-input log per player, the simulation state of
//! the current frame, and a ring of recent snapshots.  Its central invariant
//! is that the state it exposes always equals the deterministic simulation of
//! the initial state under the effective inputs of some log that agrees with
//! the live one on every frame below the pending rollback target; resolving
//! the rollback restores full agreement with the live log.

use vstd::prelude::*;
use crate::ilog::{entry, input_for, horizon, lemma_confirm_preserves_below, lemma_confirm_matching,
    log_entry, log_confirm, effective_input, horizon_exec};
use crate::sim::{Ship, ships_wf, state_step, initial_state, lemma_state_step_wf,
    lemma_initial_state_wf, step_ships};

verus! {

/// Where a session stands in its lifecycle.
#[derive(Clone, Copy, PartialEq, Eq, Structural, Debug)]
pub enum SessionStatus {
    /// Waiting for every peer to echo matching session parameters.
    Synchronizing,
    /// Normal per-tick operation.
    Running,
    /// Too far ahead of the slowest peer: simulation paused, network serviced.
    Stalled,
    /// Terminal: torn down after a fatal error, a timeout or an explicit stop.
    Disconnected,
}

/// Why a session operation failed.
#[derive(Clone, Copy, PartialEq, Eq, Structural, Debug)]
pub enum SessionError {
    /// The signaling rendezvous could not be reached (reported by the caller
    /// that drives the connection; recoverable by retrying).
    SignalingUnavailable,
    /// Fewer participants than the session needs; build again later.
    InsufficientPeers,
    /// Parameter mismatch or protocol violation, such as two peers claiming
    /// one player handle; fatal.
    SessionDesync,
    /// A peer stopped delivering inputs; fatal for the whole session.
    PeerTimeout,
    /// No retained snapshot is old enough for a needed rollback; fatal,
    /// the snapshot ring was configured too small for the observed delay.
    RollbackDepthExceeded,
}

/// What one call of `advance_frame` did.
#[derive(Clone, Copy, PartialEq, Eq, Structural, Debug)]
pub enum FrameOutcome {
    /// One simulation frame was produced.
    Advanced,
    /// Frame advantage is over the cap: no frame was produced this tick.
    Stalled,
}

/// One player's input for one frame, as sent to every peer.
#[derive(Clone, Copy, PartialEq, Eq, Structural, Debug)]
pub struct InputFrame {
    pub handle: usize,
    pub frame: usize,
    pub bits: u8,
}

/// The per-player logs as mathematical sequences.
pub open spec fn lview(logs: Seq<Vec<Option<u8>>>) -> Seq<Seq<Option<u8>>> {
    Seq::new(logs.len(), |p: int| logs[p]@)
}

/// The effective input of every player at frame `f`.
pub open spec fn row(lv: Seq<Seq<Option<u8>>>, f: int) -> Seq<u8> {
    Seq::new(lv.len(), |p: int| input_for(lv[p], f))
}

/// The state reached from `st` at frame `from` by stepping to frame `to`
/// under the effective inputs of `lv`.
pub open spec fn sim_from(st: Seq<Ship>, lv: Seq<Seq<Option<u8>>>, from: int, to: int) -> Seq<Ship>
    decreases to - from,
{
    if to <= from {
        st
    } else {
        state_step(sim_from(st, lv, from, to - 1), row(lv, to - 1))
    }
}

/// Two log views prescribe the same effective input for every player at
/// every frame below `k`.
pub open spec fn rows_match(a: Seq<Seq<Option<u8>>>, b: Seq<Seq<Option<u8>>>, k: int) -> bool {
    &&& a.len() == b.len()
    &&& forall|p: int, f: int|
        0 <= p < a.len() && f < k ==> #[trigger] input_for(a[p], f) == input_for(b[p], f)
}

/// Determinism of resimulation: replaying forward from the state that direct
/// simulation reaches at any intermediate frame `s` reproduces, at frame `n`,
/// exactly the state that direct simulation reaches at `n`.  However many
/// rollback passes a session performs, the same inputs give the same state.
pub proof fn lemma_resimulation_deterministic(
    init: Seq<Ship>,
    lv: Seq<Seq<Option<u8>>>,
    s: int,
    n: int,
)
    requires
        0 <= s <= n,
    ensures
        sim_from(sim_from(init, lv, 0, s), lv, s, n) == sim_from(init, lv, 0, n),
    decreases n - s,
{
    if n > s {
        lemma_resimulation_deterministic(init, lv, s, n - 1);
    }
}

/// Rollback correctness, prefix half: if two logs agree on every effective
/// input below frame `k` (as they do below the earliest correction), then
/// simulation under them agrees at every frame up to `k`.  States before a
/// corrected frame are untouched by the correction.
pub proof fn lemma_prefix_preserved(
    init: Seq<Ship>,
    lv1: Seq<Seq<Option<u8>>>,
    lv2: Seq<Seq<Option<u8>>>,
    k: int,
    g: int,
)
    requires
        rows_match(lv1, lv2, k),
        g <= k,
    ensures
        sim_from(init, lv1, 0, g) == sim_from(init, lv2, 0, g),
    decreases g,
{
    if g > 0 {
        lemma_prefix_preserved(init, lv1, lv2, k, g - 1);
        assert(row(lv1, g - 1) =~= row(lv2, g - 1));
    }
}

proof fn lemma_sim_wf(st: Seq<Ship>, lv: Seq<Seq<Option<u8>>>, from: int, to: int)
    requires
        ships_wf(st),
    ensures
        sim_from(st, lv, from, to).len() == st.len(),
        ships_wf(sim_from(st, lv, from, to)),
    decreases to - from,
{
    if to > from {
        lemma_sim_wf(st, lv, from, to - 1);
        lemma_state_step_wf(sim_from(st, lv, from, to - 1), row(lv, to - 1));
    }
}

/// The smallest confirmation horizon among the remote players below index
/// `i`, if any remote player exists there.
pub open spec fn min_remote_horizon(lv: Seq<Seq<Option<u8>>>, local: int, i: int) -> Option<int>
    decreases i,
{
    if i <= 0 {
        None
    } else {
        let rest = min_remote_horizon(lv, local, i - 1);
        if i - 1 == local {
            rest
        } else {
            let h = horizon(lv[i - 1]);
            match rest {
                None => Some(h),
                Some(m) => if h < m {
                    Some(h)
                } else {
                    Some(m)
                },
            }
        }
    }
}

pub open spec fn all_true(c: Seq<bool>) -> bool {
    forall|i: int| 0 <= i < c.len() ==> c[i]
}

pub open spec fn strictly_sorted(s: Seq<u64>) -> bool {
    forall|i: int, j: int| 0 <= i < j < s.len() ==> s[i] < s[j]
}

/// The local peer is not in the remote roster and no remote peer repeats.
pub open spec fn dup_free(local: u64, rs: Seq<u64>) -> bool {
    &&& !rs.contains(local)
    &&& forall|i: int, j: int| 0 <= i < j < rs.len() ==> rs[i] != rs[j]
}

/// A rollback synchronization session for one match.
///
/// The snapshot ring and the confirmed-input logs are owned and mutated by
/// the session alone; other components read them through accessors.
pub struct Session {
    num_players: usize,
    input_delay: usize,
    max_frame_advantage: usize,
    snap_capacity: usize,
    local_handle: usize,
    status: SessionStatus,
    owners: Vec<u64>,
    confirmed_peers: Vec<bool>,
    logs: Vec<Vec<Option<u8>>>,
    current_frame: usize,
    state: Vec<Ship>,
    snap_base: usize,
    snaps: Vec<Vec<Ship>>,
    pending_rollback: Option<usize>,
    sim_logs: Ghost<Seq<Seq<Option<u8>>>>,
}

impl Session {
    pub closed spec fn players_of(self) -> int {
        self.num_players as int
    }

    pub closed spec fn delay_of(self) -> int {
        self.input_delay as int
    }

    pub closed spec fn advantage_cap_of(self) -> int {
        self.max_frame_advantage as int
    }

    pub closed spec fn window_of(self) -> int {
        self.snap_capacity as int
    }

    pub closed spec fn local_of(self) -> int {
        self.local_handle as int
    }

    pub closed spec fn status_of(self) -> SessionStatus {
        self.status
    }

    pub closed spec fn frame_of(self) -> int {
        self.current_frame as int
    }

    /// The per-player confirmed-input logs.
    pub closed spec fn log_of(self) -> Seq<Seq<Option<u8>>> {
        lview(self.logs@)
    }

    /// The simulation state at the current frame.
    pub closed spec fn state_of(self) -> Seq<Ship> {
        self.state@
    }

    /// The handle-to-peer assignment.
    pub closed spec fn owner_seq(self) -> Seq<u64> {
        self.owners@
    }

    /// Whether the peer owning `h` has echoed matching session parameters.
    pub closed spec fn peer_confirmed(self, h: int) -> bool {
        self.confirmed_peers@[h]
    }

    pub closed spec fn confirmed_seq(self) -> Seq<bool> {
        self.confirmed_peers@
    }

    /// The earliest frame whose snapshot is still retained.
    pub closed spec fn oldest_snapshot_of(self) -> int {
        self.snap_base as int
    }

    /// The earliest frame simulated with an input that a later confirmation
    /// contradicted, if any: the rollback target.
    pub closed spec fn pending_of(self) -> Option<int> {
        match self.pending_rollback {
            Some(t) => Some(t as int),
            None => None,
        }
    }

    /// Frame advantage: how far the local simulation has run ahead of the
    /// slowest remote peer's confirmation horizon.
    pub closed spec fn advantage_of(self) -> int {
        match min_remote_horizon(self.log_of(), self.local_of(), self.players_of()) {
            None => 0,
            Some(m) => self.frame_of() - m,
        }
    }

    /// Internal consistency: the exposed state is the deterministic
    /// simulation of the initial state under the logged inputs (as of the
    /// last completed simulation pass), every retained snapshot likewise, and
    /// the last simulation pass agrees with the live log on every frame below
    /// the pending rollback target (below the current frame when no rollback
    /// is pending).
    pub closed spec fn wf(self) -> bool {
        let n = self.num_players as int;
        let lv = lview(self.logs@);
        &&& 1 <= n <= 0xFFFF
        &&& self.input_delay <= 0xFF
        &&& self.local_handle < self.num_players
        &&& self.owners@.len() == n
        &&& strictly_sorted(self.owners@)
        &&& self.confirmed_peers@.len() == n
        &&& self.confirmed_peers@[self.local_handle as int]
        &&& self.logs@.len() == n
        &&& self.sim_logs@.len() == n
        &&& self.state@.len() == n
        &&& ships_wf(self.state@)
        &&& self.state@ == sim_from(initial_state(n), self.sim_logs@, 0, self.current_frame as int)
        &&& 1 <= self.snap_capacity
        &&& 1 <= self.snaps@.len() <= self.snap_capacity
        &&& self.snap_base as int + self.snaps@.len() == self.current_frame as int + 1
        &&& forall|i: int|
            0 <= i < self.snaps@.len() ==> (#[trigger] self.snaps@[i])@ == sim_from(
                initial_state(n),
                self.sim_logs@,
                0,
                self.snap_base as int + i,
            )
        &&& match self.pending_rollback {
            Some(t) => t < self.current_frame && rows_match(self.sim_logs@, lv, t as int),
            None => rows_match(self.sim_logs@, lv, self.current_frame as int),
        }
        &&& (self.status is Running || self.status is Stalled) ==> all_true(self.confirmed_peers@)
    }

    pub fn status(&self) -> (r: SessionStatus)
        ensures
            r == self.status_of(),
    {
        self.status
    }

    pub fn current_frame(&self) -> (r: usize)
        ensures
            r as int == self.frame_of(),
    {
        self.current_frame
    }

    pub fn num_players(&self) -> (r: usize)
        ensures
            r as int == self.players_of(),
    {
        self.num_players
    }

    pub fn input_delay(&self) -> (r: usize)
        ensures
            r as int == self.delay_of(),
    {
        self.input_delay
    }

    pub fn local_handle(&self) -> (r: usize)
        ensures
            r as int == self.local_of(),
    {
        self.local_handle
    }

    /// The ship of player `h` at the current frame.
    pub fn ship(&self, h: usize) -> (r: Ship)
        requires
            self.wf(),
            h < self.players_of(),
        ensures
            r == self.state_of()[h as int],
    {
        self.state[h]
    }

    /// The confirmed input of player `h` at `frame`, if one has arrived.
    pub fn confirmed_input(&self, h: usize, frame: usize) -> (r: Option<u8>)
        requires
            self.wf(),
            h < self.players_of(),
        ensures
            r == entry(self.log_of()[h as int], frame as int),
    {
        log_entry(&self.logs[h], frame)
    }

    /// The effective (confirmed-or-predicted) input of player `h` at `frame`.
    pub fn effective_input_of(&self, h: usize, frame: usize) -> (r: u8)
        requires
            self.wf(),
            h < self.players_of(),
        ensures
            r == input_for(self.log_of()[h as int], frame as int),
    {
        effective_input(&self.logs[h], frame)
    }
}

/// Copies a simulation state, e.g. into or out of the snapshot ring.
fn clone_ships(v: &Vec<Ship>) -> (r: Vec<Ship>)
    ensures
        r@ == v@,
{
    let mut r: Vec<Ship> = Vec::new();
    let mut i: usize = 0;
    while i < v.len()
        invariant
            i <= v@.len(),
            r@.len() == i,
            forall|k: int| 0 <= k < i ==> r@[k] == v@[k],
        decreases v@.len() - i,
    {
        r.push(v[i]);
        i = i + 1;
    }
    proof {
        assert(r@ =~= v@);
    }
    r
}

/// Assigns player handles: all peer identities, local included, in strictly
/// ascending order, so that every participant derives the same assignment.
/// `None` when an identity repeats, which is a protocol violation.
fn sorted_roster(local_peer: u64, remote: &Vec<u64>) -> (r: Option<Vec<u64>>)
    ensures
        match r {
            Some(ids) => {
                &&& dup_free(local_peer, remote@)
                &&& ids@.len() == remote@.len() + 1
                &&& strictly_sorted(ids@)
                &&& forall|x: u64|
                    ids@.contains(x) <==> (x == local_peer || remote@.contains(x))
            },
            None => !dup_free(local_peer, remote@),
        },
{
    let mut ids: Vec<u64> = Vec::new();
    ids.push(local_peer);
    proof {
        assert(remote@.subrange(0, 0) =~= Seq::<u64>::empty());
        assert forall|x: u64|
            ids@.contains(x) <==> (x == local_peer || remote@.subrange(0, 0).contains(x)) by {
            if x == local_peer {
                assert(ids@[0] == x);
            }
            if ids@.contains(x) {
                let a = choose|a: int| 0 <= a < ids@.len() && ids@[a] == x;
                assert(a == 0);
            }
        }
    }
    let mut i: usize = 0;
    while i < remote.len()
        invariant
            i <= remote@.len(),
            ids@.len() == i + 1,
            strictly_sorted(ids@),
            forall|x: u64|
                ids@.contains(x) <==> (x == local_peer || remote@.subrange(0, i as int).contains(
                    x,
                )),
            forall|j: int| 0 <= j < i ==> remote@[j] != local_peer,
            forall|j: int, k: int| 0 <= j < k < i ==> remote@[j] != remote@[k],
        decreases remote@.len() - i,
    {
        let x = remote[i];
        let mut pos: usize = 0;
        while pos < ids.len() && ids[pos] < x
            invariant
                pos <= ids@.len(),
                forall|k: int| 0 <= k < pos ==> ids@[k] < x,
            decreases ids@.len() - pos,
        {
            pos = pos + 1;
        }
        if pos < ids.len() && ids[pos] == x {
            proof {
                assert(ids@.contains(x));
                assert(x == local_peer || remote@.subrange(0, i as int).contains(x));
                if remote@.subrange(0, i as int).contains(x) {
                    let j = choose|j: int|
                        0 <= j < i && remote@.subrange(0, i as int)[j] == x;
                    assert(remote@[j] == remote@[i as int]);
                }
            }
            return None;
        }
        let ghost prev = ids@;
        proof {
            // the scan finds every value present in a strictly sorted list,
            // so not finding x here means x is not yet assigned a handle
            assert(!prev.contains(x)) by {
                if prev.contains(x) {
                    let a = choose|a: int| 0 <= a < prev.len() && prev[a] == x;
                    if a < pos {
                        assert(prev[a] < x);
                    } else {
                        assert(pos < prev.len());
                        if a > pos {
                            assert(prev[pos as int] < prev[a]);
                        }
                    }
                }
            }
            assert(x != local_peer);
            assert forall|j: int| 0 <= j < i implies remote@[j] != x by {
                if remote@[j] == x {
                    assert(remote@.subrange(0, i as int)[j] == x);
                    assert(remote@.subrange(0, i as int).contains(x));
                }
            }
            prev.insert_ensures(pos as int, x);
        }
        ids.insert(pos, x);
        i = i + 1;
        proof {
            assert forall|a: int, b: int| 0 <= a < b < ids@.len() implies ids@[a] < ids@[b] by {
                if b < pos {
                } else if b == pos {
                    assert(ids@[a] == prev[a]);
                } else {
                    assert(ids@[b] == prev[b - 1]);
                    if a == pos {
                        assert(prev[pos as int] <= prev[b - 1]);
                        assert(!(prev[pos as int] < x) || pos >= prev.len());
                        assert(prev[pos as int] != x);
                    } else if a < pos {
                        assert(ids@[a] == prev[a]);
                        assert(prev[a] < x);
                        if pos as int <= b - 1 {
                            assert(prev[pos as int] <= prev[b - 1]);
                        }
                        assert(x <= prev[b - 1]) by {
                            assert(!(prev[pos as int] < x));
                        }
                    } else {
                        assert(ids@[a] == prev[a - 1]);
                    }
                }
            }
            assert forall|y: u64|
                ids@.contains(y) <==> (y == local_peer || remote@.subrange(0, i as int).contains(
                    y,
                )) by {
                if ids@.contains(y) {
                    let a = choose|a: int| 0 <= a < ids@.len() && ids@[a] == y;
                    if a < pos {
                        assert(prev.contains(y)) by {
                            assert(prev[a] == y);
                        }
                        assert(y == local_peer || remote@.subrange(0, i - 1).contains(y));
                        if remote@.subrange(0, i - 1).contains(y) {
                            let b = choose|b: int|
                                0 <= b < i - 1 && #[trigger] remote@.subrange(0, i - 1)[b] == y;
                            assert(remote@.subrange(0, i as int)[b] == y);
                            assert(remote@.subrange(0, i as int).contains(y));
                        }
                    } else if a == pos {
                        assert(y == x);
                        assert(remote@.subrange(0, i as int)[i - 1] == x);
                        assert(remote@.subrange(0, i as int).contains(y));
                    } else {
                        assert(prev.contains(y)) by {
                            assert(ids@[a] == prev[a - 1]);
                            assert(prev[a - 1] == y);
                        }
                        assert(y == local_peer || remote@.subrange(0, i - 1).contains(y));
                        if remote@.subrange(0, i - 1).contains(y) {
                            let b = choose|b: int|
                                0 <= b < i - 1 && #[trigger] remote@.subrange(0, i - 1)[b] == y;
                            assert(remote@.subrange(0, i as int)[b] == y);
                            assert(remote@.subrange(0, i as int).contains(y));
                        }
                    }
                }
                if y == local_peer || remote@.subrange(0, i as int).contains(y) {
                    if y == x {
                        assert(ids@[pos as int] == x);
                        assert(ids@.contains(y));
                    } else {
                        assert(y == local_peer || remote@.subrange(0, i - 1).contains(y)) by {
                            if y != local_peer {
                                let b = choose|b: int|
                                    0 <= b < i && remote@.subrange(0, i as int)[b] == y;
                                assert(b != i - 1);
                                assert(remote@.subrange(0, i - 1)[b] == y);
                            }
                        }
                        assert(prev.contains(y));
                        let a = choose|a: int| 0 <= a < prev.len() && prev[a] == y;
                        if a < pos {
                            assert(ids@[a] == y);
                        } else {
                            assert(ids@[a + 1] == y);
                        }
                        assert(ids@.contains(y));
                    }
                }
            }
        }
    }
    proof {
        assert(remote@.subrange(0, remote@.len() as int) =~= remote@);
        assert(!remote@.contains(local_peer)) by {
            if remote@.contains(local_peer) {
                let j = choose|j: int| 0 <= j < remote@.len() && remote@[j] == local_peer;
            }
        }
    }
    Some(ids)
}

impl Session {
    /// Builds a session for exactly `num_players` participants: the local
    /// peer plus `remote_peers`.  Handles are assigned by sorted peer
    /// identity, the same on every participant.  The session starts in
    /// `Synchronizing` with only the local participant confirmed.
    pub fn build(
        local_peer: u64,
        remote_peers: &Vec<u64>,
        num_players: usize,
        input_delay: usize,
        max_frame_advantage: usize,
        rollback_window: usize,
    ) -> (r: Result<Session, SessionError>)
        requires
            num_players <= 0xFFFF,
            input_delay <= 0xFF,
        ensures
            match r {
                Result::Ok(s) => {
                    &&& remote_peers@.len() + 1 == num_players
                    &&& rollback_window >= 1
                    &&& dup_free(local_peer, remote_peers@)
                    &&& s.wf()
                    &&& s.status_of() is Synchronizing
                    &&& s.players_of() == num_players
                    &&& s.delay_of() == input_delay
                    &&& s.advantage_cap_of() == max_frame_advantage
                    &&& s.window_of() == rollback_window
                    &&& s.frame_of() == 0
                    &&& s.state_of() == initial_state(num_players as int)
                    &&& strictly_sorted(s.owner_seq())
                    &&& forall|x: u64|
                        s.owner_seq().contains(x) <==> (x == local_peer || remote_peers@.contains(
                            x,
                        ))
                    &&& 0 <= s.local_of() < num_players
                    &&& s.owner_seq()[s.local_of()] == local_peer
                    &&& forall|h: int|
                        0 <= h < num_players ==> (s.peer_confirmed(h) <==> h == s.local_of())
                    &&& forall|p: int, f: int|
                        0 <= p < num_players ==> #[trigger] entry(s.log_of()[p], f) == (if 0 <= f
                            < input_delay {
                            Some(0u8)
                        } else {
                            None::<u8>
                        })
                },
                Result::Err(e) => {
                    &&& (e is InsufficientPeers <==> remote_peers@.len() + 1 < num_players)
                    &&& (e is RollbackDepthExceeded <==> remote_peers@.len() + 1 == num_players
                        && rollback_window == 0)
                    &&& (e is SessionDesync <==> (remote_peers@.len() + 1 > num_players || (
                    remote_peers@.len() + 1 == num_players && rollback_window >= 1 && !dup_free(
                        local_peer,
                        remote_peers@,
                    ))))
                    &&& (e is InsufficientPeers || e is RollbackDepthExceeded
                        || e is SessionDesync)
                },
            },
    {
        if num_players == 0 {
            return Result::Err(SessionError::SessionDesync);
        }
        if remote_peers.len() < num_players - 1 {
            return Result::Err(SessionError::InsufficientPeers);
        }
        if remote_peers.len() > num_players - 1 {
            return Result::Err(SessionError::SessionDesync);
        }
        if rollback_window == 0 {
            return Result::Err(SessionError::RollbackDepthExceeded);
        }
        let ids = match sorted_roster(local_peer, remote_peers) {
            Some(v) => v,
            None => {
                return Result::Err(SessionError::SessionDesync);
            },
        };
        let mut lh: usize = 0;
        while lh < num_players && ids[lh] != local_peer
            invariant
                lh <= num_players,
                num_players == ids@.len(),
                forall|k: int| 0 <= k < lh ==> ids@[k] != local_peer,
            decreases num_players - lh,
        {
            lh = lh + 1;
        }
        proof {
            assert(ids@.contains(local_peer));
            if lh >= num_players {
                let a = choose|a: int| 0 <= a < ids@.len() && ids@[a] == local_peer;
                assert(false);
            }
        }
        // the first `input_delay` frames of every player run on the agreed
        // default input: every peer pre-confirms them as idle
        let mut proto: Vec<Option<u8>> = Vec::new();
        let mut d: usize = 0;
        while d < input_delay
            invariant
                d <= input_delay,
                proto@.len() == d,
                forall|k: int| 0 <= k < d ==> proto@[k] == Some(0u8),
            decreases input_delay - d,
        {
            proto.push(Some(0));
            d = d + 1;
        }
        let mut logs: Vec<Vec<Option<u8>>> = Vec::new();
        let mut confirmed: Vec<bool> = Vec::new();
        let mut state: Vec<Ship> = Vec::new();
        let mut h: usize = 0;
        while h < num_players
            invariant
                h <= num_players,
                num_players <= 0xFFFF,
                logs@.len() == h,
                confirmed@.len() == h,
                state@.len() == h,
                proto@.len() == input_delay,
                forall|k: int| 0 <= k < input_delay ==> proto@[k] == Some(0u8),
                forall|k: int| 0 <= k < h ==> (#[trigger] logs@[k])@ == proto@,
                forall|k: int| 0 <= k < h ==> !(#[trigger] confirmed@[k]),
                forall|k: int| 0 <= k < h ==> #[trigger] state@[k] == crate::sim::spawn_ship(k),
            decreases num_players - h,
        {
            logs.push(clone_log(&proto));
            confirmed.push(false);
            let mut sx: i64 = (h as i64) * crate::sim::SPAWN_STRIDE;
            if sx > crate::sim::HALF_WIDTH {
                sx = crate::sim::HALF_WIDTH;
            }
            state.push(Ship { x: sx, y: 0 });
            h = h + 1;
        }
        confirmed[lh] = true;
        let snap0 = clone_ships(&state);
        let mut snaps: Vec<Vec<Ship>> = Vec::new();
        snaps.push(snap0);
        let ghost sl = lview(logs@);
        let s = Session {
            num_players,
            input_delay,
            max_frame_advantage,
            snap_capacity: rollback_window,
            local_handle: lh,
            status: SessionStatus::Synchronizing,
            owners: ids,
            confirmed_peers: confirmed,
            logs,
            current_frame: 0,
            state,
            snap_base: 0,
            snaps,
            pending_rollback: None,
            sim_logs: Ghost(sl),
        };
        proof {
            lemma_initial_state_wf(num_players as int);
            assert(s.state@ =~= initial_state(num_players as int));
            assert(s.snaps@[0]@ == sim_from(
                initial_state(num_players as int),
                s.sim_logs@,
                0,
                0,
            ));
            assert forall|p: int, f: int| 0 <= p < num_players implies #[trigger] entry(
                s.log_of()[p],
                f,
            ) == (if 0 <= f < input_delay {
                Some(0u8)
            } else {
                None::<u8>
            }) by {
                assert(s.log_of()[p] == s.logs@[p]@);
            }
        }
        Result::Ok(s)
    }

    /// Records that `peer` echoed the session parameters and claims `handle`.
    /// A mismatch in any parameter, an unknown handle, or a claim on a handle
    /// owned by a different peer is a fatal desynchronization.  When the last
    /// outstanding participant confirms, the session transitions from
    /// `Synchronizing` to `Running`; it never runs before that.
    pub fn confirm_peer(
        &mut self,
        peer: u64,
        handle: usize,
        num_players: usize,
        input_delay: usize,
    ) -> (r: Result<bool, SessionError>)
        requires
            old(self).wf(),
        ensures
            final(self).wf(),
            final(self).players_of() == old(self).players_of(),
            final(self).delay_of() == old(self).delay_of(),
            final(self).advantage_cap_of() == old(self).advantage_cap_of(),
            final(self).window_of() == old(self).window_of(),
            final(self).local_of() == old(self).local_of(),
            final(self).owner_seq() == old(self).owner_seq(),
            final(self).log_of() == old(self).log_of(),
            final(self).frame_of() == old(self).frame_of(),
            final(self).state_of() == old(self).state_of(),
            final(self).pending_of() == old(self).pending_of(),
            match r {
                Result::Ok(running) => {
                    if old(self).status_of() is Disconnected {
                        *final(self) == *old(self) && running == false
                    } else {
                        &&& num_players == old(self).players_of()
                        &&& input_delay == old(self).delay_of()
                        &&& 0 <= (handle as int) < old(self).players_of()
                        &&& old(self).owner_seq()[handle as int] == peer
                        &&& forall|h: int|
                            0 <= h < old(self).players_of() ==> (final(self).peer_confirmed(h)
                                <==> (old(self).peer_confirmed(h) || h == handle))
                        &&& final(self).status_of() == (if old(
                            self,
                        ).status_of() is Synchronizing && all_true(final(self).confirmed_seq()) {
                            SessionStatus::Running
                        } else {
                            old(self).status_of()
                        })
                        &&& running == (final(self).status_of() is Running)
                    }
                },
                Result::Err(e) => {
                    &&& e is SessionDesync
                    &&& !(old(self).status_of() is Disconnected)
                    &&& (num_players != old(self).players_of() || input_delay != old(
                        self,
                    ).delay_of() || handle as int >= old(self).players_of() || old(
                        self,
                    ).owner_seq()[handle as int] != peer)
                    &&& final(self).status_of() is Disconnected
                    &&& final(self).confirmed_seq() == old(self).confirmed_seq()
                },
            },
    {
        match self.status {
            SessionStatus::Disconnected => {
                return Result::Ok(false);
            },
            _ => {},
        }
        if num_players != self.num_players || input_delay != self.input_delay || handle
            >= self.num_players || self.owners[handle] != peer {
            self.status = SessionStatus::Disconnected;
            return Result::Err(SessionError::SessionDesync);
        }
        self.confirmed_peers[handle] = true;
        let mut all: bool = true;
        let mut k: usize = 0;
        while k < self.num_players
            invariant
                k <= self.num_players,
                self.confirmed_peers@.len() == self.num_players,
                all <==> (forall|j: int| 0 <= j < k ==> self.confirmed_peers@[j]),
            decreases self.num_players - k,
        {
            if !self.confirmed_peers[k] {
                all = false;
            }
            k = k + 1;
        }
        let mut now_running: bool = false;
        match self.status {
            SessionStatus::Synchronizing => {
                if all {
                    self.status = SessionStatus::Running;
                    now_running = true;
                }
            },
            SessionStatus::Running => {
                now_running = true;
            },
            _ => {},
        }
        Result::Ok(now_running)
    }

    /// Replaces player `p`'s log wholesale (the only way Verus lets a nested
    /// vector be updated); the view is the old view with slot `p` updated.
    fn put_log(&mut self, p: usize, inner: Vec<Option<u8>>)
        requires
            p < old(self).logs@.len(),
        ensures
            final(self).logs@ == old(self).logs@.update(p as int, inner),
            final(self).num_players == old(self).num_players,
            final(self).input_delay == old(self).input_delay,
            final(self).max_frame_advantage == old(self).max_frame_advantage,
            final(self).snap_capacity == old(self).snap_capacity,
            final(self).local_handle == old(self).local_handle,
            final(self).status == old(self).status,
            final(self).owners == old(self).owners,
            final(self).confirmed_peers == old(self).confirmed_peers,
            final(self).current_frame == old(self).current_frame,
            final(self).state == old(self).state,
            final(self).snap_base == old(self).snap_base,
            final(self).snaps == old(self).snaps,
            final(self).pending_rollback == old(self).pending_rollback,
            final(self).sim_logs == old(self).sim_logs,
    {
        let ghost before = self.logs@;
        let _ = self.logs.remove(p);
        self.logs.insert(p, inner);
        proof {
            assert(self.logs@ =~= before.update(p as int, inner));
        }
    }

    /// Appends the local player's sampled input for the upcoming frame
    /// (`current_frame + input_delay`), confirmed at creation, and returns
    /// the packet to broadcast to every peer.  When the slot is already
    /// confirmed -- a stalled session keeps sending -- the existing value is
    /// re-sent and nothing changes.
    pub fn add_local_input(&mut self, bits: u8) -> (r: InputFrame)
        requires
            old(self).wf(),
            crate::input::valid_bits(bits),
            old(self).status_of() is Running || old(self).status_of() is Stalled,
            old(self).frame_of() + old(self).delay_of() < usize::MAX,
        ensures
            final(self).wf(),
            final(self).players_of() == old(self).players_of(),
            final(self).delay_of() == old(self).delay_of(),
            final(self).advantage_cap_of() == old(self).advantage_cap_of(),
            final(self).window_of() == old(self).window_of(),
            final(self).local_of() == old(self).local_of(),
            final(self).owner_seq() == old(self).owner_seq(),
            final(self).confirmed_seq() == old(self).confirmed_seq(),
            final(self).status_of() == old(self).status_of(),
            final(self).frame_of() == old(self).frame_of(),
            final(self).state_of() == old(self).state_of(),
            final(self).pending_of() == old(self).pending_of(),
            final(self).oldest_snapshot_of() == old(self).oldest_snapshot_of(),
            r.handle as int == old(self).local_of(),
            r.frame as int == old(self).frame_of() + old(self).delay_of(),
            forall|p: int, f: int|
                0 <= p < old(self).players_of() && #[trigger] entry(
                    old(self).log_of()[p],
                    f,
                ) is Some ==> entry(final(self).log_of()[p], f) == entry(old(self).log_of()[p], f),
            match entry(
                old(self).log_of()[old(self).local_of()],
                old(self).frame_of() + old(self).delay_of(),
            ) {
                Some(w) => *final(self) == *old(self) && r.bits == w,
                None => {
                    &&& r.bits == bits
                    &&& entry(
                        final(self).log_of()[old(self).local_of()],
                        old(self).frame_of() + old(self).delay_of(),
                    ) == Some(bits)
                    &&& forall|f: int|
                        f != old(self).frame_of() + old(self).delay_of() ==> entry(
                            final(self).log_of()[old(self).local_of()],
                            f,
                        ) == entry(old(self).log_of()[old(self).local_of()], f)
                    &&& forall|p: int|
                        0 <= p < old(self).players_of() && p != old(self).local_of()
                            ==> final(self).log_of()[p] == old(self).log_of()[p]
                },
            },
    {
        let j = self.current_frame + self.input_delay;
        let lh = self.local_handle;
        match log_entry(&self.logs[lh], j) {
            Some(w) => {
                return InputFrame { handle: lh, frame: j, bits: w };
            },
            None => {},
        }
        let ghost olv = lview(self.logs@);
        let ghost olog = self.logs@[lh as int]@;
        let mut inner = clone_log(&self.logs[lh]);
        log_confirm(&mut inner, j, bits);
        let ghost nlog = inner@;
        self.put_log(lh, inner);
        proof {
            let nlv = lview(self.logs@);
            assert forall|p: int| 0 <= p < olv.len() && p != lh implies nlv[p] == olv[p] by {
                assert(self.logs@[p] == old(self).logs@[p]);
            }
            assert(nlv[lh as int] == nlog);
            lemma_confirm_preserves_below(olog, nlog, j as int);
            let k = match self.pending_rollback {
                Some(t) => t as int,
                None => self.current_frame as int,
            };
            assert(rows_match(self.sim_logs@, nlv, k)) by {
                assert forall|p: int, f: int| 0 <= p < nlv.len() && f < k implies #[trigger]
                    input_for(self.sim_logs@[p], f) == input_for(nlv[p], f) by {
                    assert(input_for(self.sim_logs@[p], f) == input_for(olv[p], f));
                    if p == lh as int {
                        assert(input_for(nlog, f) == input_for(olog, f));
                    }
                }
            }
        }
        InputFrame { handle: lh, frame: j, bits }
    }

    /// Records a remote player's confirmed input for a frame.  Duplicates of
    /// an already-confirmed slot with the same bits are idempotent no-ops; a
    /// contradiction of a confirmed slot, a reserved input bit, an unknown
    /// handle or a claim on the local player's handle is a fatal
    /// desynchronization.  When the confirmed value contradicts the
    /// prediction already simulated at an earlier frame, that frame becomes
    /// (or lowers) the pending rollback target.
    pub fn handle_remote_input(&mut self, handle: usize, frame: usize, bits: u8) -> (r: Result<
        (),
        SessionError,
    >)
        requires
            old(self).wf(),
            frame < usize::MAX,
        ensures
            final(self).wf(),
            final(self).players_of() == old(self).players_of(),
            final(self).delay_of() == old(self).delay_of(),
            final(self).advantage_cap_of() == old(self).advantage_cap_of(),
            final(self).window_of() == old(self).window_of(),
            final(self).local_of() == old(self).local_of(),
            final(self).owner_seq() == old(self).owner_seq(),
            final(self).confirmed_seq() == old(self).confirmed_seq(),
            final(self).frame_of() == old(self).frame_of(),
            final(self).state_of() == old(self).state_of(),
            final(self).oldest_snapshot_of() == old(self).oldest_snapshot_of(),
            forall|p: int, f: int|
                0 <= p < old(self).players_of() && #[trigger] entry(
                    old(self).log_of()[p],
                    f,
                ) is Some ==> entry(final(self).log_of()[p], f) == entry(old(self).log_of()[p], f),
            match r {
                Result::Ok(_) => {
                    if old(self).status_of() is Disconnected {
                        *final(self) == *old(self)
                    } else {
                        &&& crate::input::valid_bits(bits)
                        &&& 0 <= (handle as int) < old(self).players_of()
                        &&& handle as int != old(self).local_of()
                        &&& final(self).status_of() == old(self).status_of()
                        &&& if entry(old(self).log_of()[handle as int], frame as int) is Some {
                            *final(self) == *old(self) && entry(
                                old(self).log_of()[handle as int],
                                frame as int,
                            ) == Some(bits)
                        } else {
                            &&& entry(final(self).log_of()[handle as int], frame as int) == Some(
                                bits,
                            )
                            &&& forall|f: int|
                                f != frame as int ==> entry(final(self).log_of()[handle as int], f)
                                    == entry(old(self).log_of()[handle as int], f)
                            &&& forall|p: int|
                                0 <= p < old(self).players_of() && p != handle as int
                                    ==> final(self).log_of()[p] == old(self).log_of()[p]
                            &&& final(self).pending_of() == (if bits != input_for(
                                old(self).log_of()[handle as int],
                                frame as int,
                            ) && (frame as int) < old(self).frame_of() {
                                match old(self).pending_of() {
                                    Some(t) => if (frame as int) < t {
                                        Some(frame as int)
                                    } else {
                                        Some(t)
                                    },
                                    None => Some(frame as int),
                                }
                            } else {
                                old(self).pending_of()
                            })
                        }
                    }
                },
                Result::Err(e) => {
                    &&& e is SessionDesync
                    &&& !(old(self).status_of() is Disconnected)
                    &&& final(self).status_of() is Disconnected
                    &&& final(self).log_of() == old(self).log_of()
                    &&& final(self).pending_of() == old(self).pending_of()
                    &&& (!crate::input::valid_bits(bits) || handle as int >= old(
                        self,
                    ).players_of() || handle as int == old(self).local_of() || (entry(
                        old(self).log_of()[handle as int],
                        frame as int,
                    ) matches Some(w) && w != bits))
                },
            },
    {
        match self.status {
            SessionStatus::Disconnected => {
                return Result::Ok(());
            },
            _ => {},
        }
        if bits >= 32 || handle >= self.num_players || handle == self.local_handle {
            self.status = SessionStatus::Disconnected;
            return Result::Err(SessionError::SessionDesync);
        }
        match log_entry(&self.logs[handle], frame) {
            Some(w) => {
                if w == bits {
                    return Result::Ok(());
                }
                self.status = SessionStatus::Disconnected;
                return Result::Err(SessionError::SessionDesync);
            },
            None => {},
        }
        let pred = effective_input(&self.logs[handle], frame);
        let ghost olv = lview(self.logs@);
        let ghost olog = self.logs@[handle as int]@;
        let mut inner = clone_log(&self.logs[handle]);
        log_confirm(&mut inner, frame, bits);
        let ghost nlog = inner@;
        self.put_log(handle, inner);
        if bits != pred && frame < self.current_frame {
            self.pending_rollback = match self.pending_rollback {
                Some(t) => if frame < t {
                    Some(frame)
                } else {
                    Some(t)
                },
                None => Some(frame),
            };
        }
        proof {
            let nlv = lview(self.logs@);
            assert forall|p: int| 0 <= p < olv.len() && p != handle implies nlv[p] == olv[p] by {
                assert(self.logs@[p] == old(self).logs@[p]);
            }
            assert(nlv[handle as int] == nlog);
            let k0 = match old(self).pending_rollback {
                Some(t) => t as int,
                None => old(self).current_frame as int,
            };
            let k1 = match self.pending_rollback {
                Some(t) => t as int,
                None => self.current_frame as int,
            };
            if bits == pred {
                lemma_confirm_matching(olog, nlog, frame as int);
            } else {
                lemma_confirm_preserves_below(olog, nlog, frame as int);
            }
            assert(k1 <= k0);
            assert(bits != pred ==> k1 <= frame as int);
            assert(rows_match(self.sim_logs@, nlv, k1)) by {
                assert forall|p: int, f: int| 0 <= p < nlv.len() && f < k1 implies #[trigger]
                    input_for(self.sim_logs@[p], f) == input_for(nlv[p], f) by {
                    assert(input_for(self.sim_logs@[p], f) == input_for(olv[p], f));
                    if p == handle as int {
                        assert(input_for(nlog, f) == input_for(olog, f));
                    }
                }
            }
        }
        Result::Ok(())
    }

    /// The effective input of every player at frame `f`.
    fn inputs_for_frame(&self, f: usize) -> (r: Vec<u8>)
        requires
            self.logs@.len() == self.num_players,
        ensures
            r@ == row(lview(self.logs@), f as int),
            r@.len() == self.num_players,
    {
        let n = self.num_players;
        let mut r: Vec<u8> = Vec::new();
        let mut p: usize = 0;
        while p < n
            invariant
                p <= n,
                n == self.logs@.len(),
                r@.len() == p,
                forall|k: int| 0 <= k < p ==> r@[k] == input_for(lview(self.logs@)[k], f as int),
            decreases n - p,
        {
            let v = effective_input(&self.logs[p], f);
            proof {
                assert(lview(self.logs@)[p as int] == self.logs@[p as int]@);
            }
            r.push(v);
            p = p + 1;
        }
        proof {
            assert(r@ =~= row(lview(self.logs@), f as int));
        }
        r
    }

    /// Whether frame advantage currently exceeds the configured cap.
    fn over_cap(&self) -> (r: bool)
        requires
            self.wf(),
        ensures
            r == (self.advantage_of() > self.advantage_cap_of()),
    {
        let n = self.num_players;
        let mut acc: Option<usize> = None;
        let mut p: usize = 0;
        while p < n
            invariant
                p <= n,
                self.wf(),
                n == self.num_players,
                match acc {
                    Some(m) => min_remote_horizon(self.log_of(), self.local_of(), p as int)
                        == Some(m as int),
                    None => min_remote_horizon(self.log_of(), self.local_of(), p as int) is None,
                },
            decreases n - p,
        {
            if p != self.local_handle {
                let h = horizon_exec(&self.logs[p]);
                proof {
                    assert(self.log_of()[p as int] == self.logs@[p as int]@);
                }
                acc = match acc {
                    Some(m) => if h < m {
                        Some(h)
                    } else {
                        Some(m)
                    },
                    None => Some(h),
                };
            }
            p = p + 1;
        }
        match acc {
            None => false,
            Some(m) => m < self.current_frame && self.current_frame - m
                > self.max_frame_advantage,
        }
    }

    /// Re-anchors the simulation bookkeeping on the live log.  Sound because
    /// with no rollback pending, the live log agrees with the log of the last
    /// simulation pass on every frame the state and snapshots depend on.
    fn resync_log_ghost(&mut self)
        requires
            old(self).wf(),
            old(self).pending_rollback is None,
        ensures
            *final(self) == (Session { sim_logs: final(self).sim_logs, ..*old(self) }),
            final(self).sim_logs@ == lview(final(self).logs@),
            final(self).wf(),
    {
        proof {
            let n = self.num_players as int;
            let lv = lview(self.logs@);
            let osl = self.sim_logs@;
            let cf = self.current_frame as int;
            lemma_prefix_preserved(initial_state(n), osl, lv, cf, cf);
            assert forall|i: int| 0 <= i < self.snaps@.len() implies (#[trigger] self.snaps@[i])@
                == sim_from(initial_state(n), lv, 0, self.snap_base as int + i) by {
                lemma_prefix_preserved(initial_state(n), osl, lv, cf, self.snap_base as int + i);
            }
        }
        self.sim_logs = Ghost(lview(self.logs@));
    }

    /// Restores the snapshot at the rollback target and resimulates forward
    /// to the current frame, consuming the corrected inputs, refreshing the
    /// overwritten snapshots on the way.  Frames before the target keep the
    /// states they had; frames from the target on are recomputed.
    fn rollback_to(&mut self, t: usize)
        requires
            old(self).wf(),
            old(self).pending_rollback == Some(t),
            old(self).snap_base <= t,
        ensures
            final(self).wf(),
            final(self).pending_rollback is None,
            final(self).sim_logs@ == lview(final(self).logs@),
            final(self).num_players == old(self).num_players,
            final(self).input_delay == old(self).input_delay,
            final(self).max_frame_advantage == old(self).max_frame_advantage,
            final(self).snap_capacity == old(self).snap_capacity,
            final(self).local_handle == old(self).local_handle,
            final(self).status == old(self).status,
            final(self).owners == old(self).owners,
            final(self).confirmed_peers == old(self).confirmed_peers,
            final(self).logs == old(self).logs,
            final(self).current_frame == old(self).current_frame,
            final(self).snap_base == old(self).snap_base,
    {
        let goal = self.current_frame;
        let idx = t - self.snap_base;
        proof {
            assert(idx < self.snaps@.len());
        }
        let restored = clone_ships(&self.snaps[idx]);
        self.state = restored;
        self.snaps.truncate(idx + 1);
        self.current_frame = t;
        self.pending_rollback = None;
        proof {
            let n = self.num_players as int;
            let lv = lview(self.logs@);
            let osl = self.sim_logs@;
            lemma_sim_wf(initial_state(n), osl, 0, t as int);
            lemma_initial_state_wf(n);
            assert forall|i: int| 0 <= i <= idx implies (#[trigger] old(self).snaps@[i])@
                == sim_from(initial_state(n), lv, 0, self.snap_base as int + i) by {
                lemma_prefix_preserved(
                    initial_state(n),
                    osl,
                    lv,
                    t as int,
                    self.snap_base as int + i,
                );
            }
        }
        self.sim_logs = Ghost(lview(self.logs@));
        proof {
            assert(self.snaps@.len() == idx + 1);
            assert forall|i: int| 0 <= i < self.snaps@.len() implies (#[trigger] self.snaps@[i])@
                == sim_from(
                initial_state(self.num_players as int),
                self.sim_logs@,
                0,
                self.snap_base as int + i,
            ) by {
                assert(self.snaps@[i] == old(self).snaps@[i]);
            }
            assert(self.wf());
        }
        while self.current_frame < goal
            invariant
                self.wf(),
                self.pending_rollback is None,
                self.sim_logs@ == lview(self.logs@),
                self.current_frame <= goal,
                goal == old(self).current_frame,
                self.num_players == old(self).num_players,
                self.input_delay == old(self).input_delay,
                self.max_frame_advantage == old(self).max_frame_advantage,
                self.snap_capacity == old(self).snap_capacity,
                self.local_handle == old(self).local_handle,
                self.status == old(self).status,
                self.owners == old(self).owners,
                self.confirmed_peers == old(self).confirmed_peers,
                self.logs == old(self).logs,
                self.snap_base == old(self).snap_base,
                old(self).snap_base as int + old(self).snaps@.len() == goal + 1,
                old(self).snaps@.len() <= old(self).snap_capacity,
            decreases goal - self.current_frame,
        {
            let f = self.current_frame;
            let ins = self.inputs_for_frame(f);
            let ns = step_ships(&self.state, &ins);
            self.state = ns;
            self.current_frame = f + 1;
            let snap = clone_ships(&self.state);
            let ghost before = self.snaps@;
            self.snaps.push(snap);
            proof {
                let n = self.num_players as int;
                let lv = self.sim_logs@;
                assert(self.state@ == sim_from(initial_state(n), lv, 0, f + 1));
                assert forall|i: int| 0 <= i < self.snaps@.len() implies (#[trigger] self
                    .snaps@[i])@ == sim_from(initial_state(n), lv, 0, self.snap_base as int + i)
                    by {
                    if i < before.len() {
                        assert(self.snaps@[i] == before[i]);
                    } else {
                        assert(self.snaps@[i]@ == self.state@);
                    }
                }
            }
        }
    }

    /// One tick of the per-frame algorithm.  First any pending rollback is
    /// resolved (or the session fails fatally when the needed snapshot has
    /// been evicted).  If frame advantage is over the cap the session stalls:
    /// no frame is produced, though inputs keep flowing.  Otherwise the
    /// simulation advances one frame under the effective inputs, a snapshot
    /// is captured, and the session stalls for the next tick if the advance
    /// pushed the advantage over the cap.
    pub fn advance_frame(&mut self) -> (r: Result<FrameOutcome, SessionError>)
        requires
            old(self).wf(),
            old(self).status_of() is Running || old(self).status_of() is Stalled,
            old(self).frame_of() + 1 < usize::MAX,
        ensures
            final(self).wf(),
            final(self).players_of() == old(self).players_of(),
            final(self).delay_of() == old(self).delay_of(),
            final(self).advantage_cap_of() == old(self).advantage_cap_of(),
            final(self).window_of() == old(self).window_of(),
            final(self).local_of() == old(self).local_of(),
            final(self).owner_seq() == old(self).owner_seq(),
            final(self).confirmed_seq() == old(self).confirmed_seq(),
            final(self).log_of() == old(self).log_of(),
            (r is Err <==> (old(self).pending_of() matches Some(t) && t < old(
                self,
            ).oldest_snapshot_of())),
            match r {
                Result::Ok(outcome) => {
                    &&& final(self).pending_of() is None
                    &&& final(self).state_of() == sim_from(
                        initial_state(old(self).players_of()),
                        old(self).log_of(),
                        0,
                        final(self).frame_of(),
                    )
                    &&& if old(self).advantage_of() > old(self).advantage_cap_of() {
                        &&& outcome is Stalled
                        &&& final(self).status_of() is Stalled
                        &&& final(self).frame_of() == old(self).frame_of()
                    } else {
                        &&& outcome is Advanced
                        &&& final(self).frame_of() == old(self).frame_of() + 1
                        &&& final(self).status_of() == (if final(self).advantage_of() > old(
                            self,
                        ).advantage_cap_of() {
                            SessionStatus::Stalled
                        } else {
                            SessionStatus::Running
                        })
                    }
                },
                Result::Err(e) => {
                    &&& e is RollbackDepthExceeded
                    &&& final(self).status_of() is Disconnected
                    &&& final(self).frame_of() == old(self).frame_of()
                    &&& final(self).state_of() == old(self).state_of()
                },
            },
    {
        match self.pending_rollback {
            Some(t) => {
                if t < self.snap_base {
                    self.status = SessionStatus::Disconnected;
                    return Result::Err(SessionError::RollbackDepthExceeded);
                }
                self.rollback_to(t);
            },
            None => {
                self.resync_log_ghost();
            },
        }
        proof {
            assert(self.advantage_of() == old(self).advantage_of());
        }
        if self.over_cap() {
            self.status = SessionStatus::Stalled;
            return Result::Ok(FrameOutcome::Stalled);
        }
        self.status = SessionStatus::Running;
        let f = self.current_frame;
        let ins = self.inputs_for_frame(f);
        let ns = step_ships(&self.state, &ins);
        self.state = ns;
        self.current_frame = f + 1;
        let snap = clone_ships(&self.state);
        let ghost before = self.snaps@;
        self.snaps.push(snap);
        proof {
            let n = self.num_players as int;
            let lv = self.sim_logs@;
            assert(self.state@ == sim_from(initial_state(n), lv, 0, f + 1));
            assert forall|i: int| 0 <= i < self.snaps@.len() implies (#[trigger] self.snaps@[i])@
                == sim_from(initial_state(n), lv, 0, self.snap_base as int + i) by {
                if i < before.len() {
                    assert(self.snaps@[i] == before[i]);
                } else {
                    assert(self.snaps@[i]@ == self.state@);
                }
            }
        }
        if self.snaps.len() > self.snap_capacity {
            let ghost pushed = self.snaps@;
            let _ = self.snaps.remove(0);
            self.snap_base = self.snap_base + 1;
            proof {
                let n = self.num_players as int;
                let lv = self.sim_logs@;
                assert forall|i: int| 0 <= i < self.snaps@.len() implies (#[trigger] self
                    .snaps@[i])@ == sim_from(initial_state(n), lv, 0, self.snap_base as int + i)
                    by {
                    assert(self.snaps@[i] == pushed[i + 1]);
                }
            }
        }
        proof {
            assert(self.wf());
        }
        if self.over_cap() {
            self.status = SessionStatus::Stalled;
            return Result::Ok(FrameOutcome::Advanced);
        }
        Result::Ok(FrameOutcome::Advanced)
    }

    /// Tears the session down: a peer timed out, its transport failed, or the
    /// caller is closing the match.  Terminal; nothing else changes, so the
    /// last completed tick's state stands and no partial rollback is left
    /// applied.
    pub fn disconnect(&mut self)
        requires
            old(self).wf(),
        ensures
            final(self).wf(),
            final(self).status_of() is Disconnected,
            final(self).players_of() == old(self).players_of(),
            final(self).delay_of() == old(self).delay_of(),
            final(self).advantage_cap_of() == old(self).advantage_cap_of(),
            final(self).window_of() == old(self).window_of(),
            final(self).local_of() == old(self).local_of(),
            final(self).owner_seq() == old(self).owner_seq(),
            final(self).confirmed_seq() == old(self).confirmed_seq(),
            final(self).log_of() == old(self).log_of(),
            final(self).frame_of() == old(self).frame_of(),
            final(self).state_of() == old(self).state_of(),
            final(self).pending_of() == old(self).pending_of(),
    {
        self.status = SessionStatus::Disconnected;
    }

    /// Escalates a peer-level timeout: `handle`'s peer stopped delivering
    /// inputs, and without its inputs nobody can advance deterministically,
    /// so the whole session disconnects -- there is no per-peer partial
    /// continuation.
    pub fn report_peer_timeout(&mut self, handle: usize) -> (e: SessionError)
        requires
            old(self).wf(),
            handle < old(self).players_of(),
        ensures
            final(self).wf(),
            e is PeerTimeout,
            final(self).status_of() is Disconnected,
            final(self).players_of() == old(self).players_of(),
            final(self).delay_of() == old(self).delay_of(),
            final(self).advantage_cap_of() == old(self).advantage_cap_of(),
            final(self).window_of() == old(self).window_of(),
            final(self).local_of() == old(self).local_of(),
            final(self).owner_seq() == old(self).owner_seq(),
            final(self).confirmed_seq() == old(self).confirmed_seq(),
            final(self).log_of() == old(self).log_of(),
            final(self).frame_of() == old(self).frame_of(),
            final(self).state_of() == old(self).state_of(),
            final(self).pending_of() == old(self).pending_of(),
    {
        self.status = SessionStatus::Disconnected;
        SessionError::PeerTimeout
    }
}

/// No early start: a running (or merely stalled) session has every one of
/// its `num_players` participants confirmed; it never left `Synchronizing`
/// with fewer.
pub proof fn lemma_no_early_start(s: Session)
    requires
        s.wf(),
        s.status_of() is Running || s.status_of() is Stalled,
    ensures
        forall|h: int| 0 <= h < s.players_of() ==> s.peer_confirmed(h),
{
}

/// Rollback correctness at the log level: when player `p`'s input for frame
/// `j` is confirmed (every other slot of every log unchanged), the simulated
/// state of every frame up to and including `j` is exactly what it was; only
/// frames after `j` can change.
pub proof fn lemma_confirmation_preserves_states(
    init: Seq<Ship>,
    lv1: Seq<Seq<Option<u8>>>,
    lv2: Seq<Seq<Option<u8>>>,
    p: int,
    j: int,
    g: int,
)
    requires
        lv1.len() == lv2.len(),
        0 <= p < lv1.len(),
        forall|q: int| 0 <= q < lv1.len() && q != p ==> lv2[q] == lv1[q],
        forall|i: int| i != j ==> entry(lv2[p], i) == entry(lv1[p], i),
        g <= j,
    ensures
        sim_from(init, lv1, 0, g) == sim_from(init, lv2, 0, g),
{
    lemma_confirm_preserves_below(lv1[p], lv2[p], j);
    assert(rows_match(lv1, lv2, j)) by {
        assert forall|q: int, f: int| 0 <= q < lv1.len() && f < j implies #[trigger] input_for(
            lv1[q],
            f,
        ) == input_for(lv2[q], f) by {
            if q != p {
                assert(lv2[q] == lv1[q]);
            }
        }
    }
    lemma_prefix_preserved(init, lv1, lv2, j, g);
}

/// Copies one player's confirmed-input log for an isolated update.
fn clone_log(v: &Vec<Option<u8>>) -> (r: Vec<Option<u8>>)
    ensures
        r@ == v@,
{
    let mut r: Vec<Option<u8>> = Vec::new();
    let mut i: usize = 0;
    while i < v.len()
        invariant
            i <= v@.len(),
            r@.len() == i,
            forall|k: int| 0 <= k < i ==> r@[k] == v@[k],
        decreases v@.len() - i,
    {
        r.push(v[i]);
        i = i + 1;
    }
    proof {
        assert(r@ =~= v@);
    }
    r
}

} // verus!
