//! In-memory leader election for shard failover.
//!
//! Each shard in the cluster has a single leader at any time. Followers
//! monitor the leader via heartbeats; when a leader fails (heartbeat
//! timeout), a follower becomes a candidate and may win the election.

use vstd::prelude::*;
use crate::error::Error;
use crate::keyed::{
    filter_map, find_u64, first_key, has_key, keyed_map, lemma_filter_step, lemma_keyed_len,
    lemma_keyed_map_index, lemma_keyed_push, lemma_keyed_update, unique_keys,
};
use crate::text::{decimal, owned, push_decimal, push_str};

verus! {

/// Leader election state for a shard.
#[derive(Debug, Clone, PartialEq, Eq)]
pub enum ElectionState {
    /// This node is the leader for this shard.
    Leader,
    /// This node is a candidate (trying to become leader).
    Candidate,
    /// This node is a follower of the given leader.
    Follower { leader_id: String },
    /// No leader elected yet.
    NoLeader,
}

/// The value of an [`ElectionState`].
pub enum ElectionStateView {
    Leader,
    Candidate,
    Follower(Seq<char>),
    NoLeader,
}

impl View for ElectionState {
    type V = ElectionStateView;

    open spec fn view(&self) -> ElectionStateView {
        match self {
            ElectionState::Leader => ElectionStateView::Leader,
            ElectionState::Candidate => ElectionStateView::Candidate,
            ElectionState::Follower { leader_id } => ElectionStateView::Follower(leader_id@),
            ElectionState::NoLeader => ElectionStateView::NoLeader,
        }
    }
}

impl ElectionState {
    /// A copy of this state.
    pub fn duplicate(&self) -> (r: Self)
        ensures
            r@ == self@,
    {
        match self {
            ElectionState::Leader => ElectionState::Leader,
            ElectionState::Candidate => ElectionState::Candidate,
            ElectionState::Follower { leader_id } => ElectionState::Follower {
                leader_id: leader_id.clone(),
            },
            ElectionState::NoLeader => ElectionState::NoLeader,
        }
    }
}

/// What `format!("{:?}", s)` gives for a string `s`: the text quoted, with
/// quotes, backslashes and non-printable characters escaped.
pub uninterp spec fn debug_text(s: Seq<char>) -> Seq<char>;

/// The `Debug` rendering of a string (`format!("{:?}", s)`).
#[verifier::external_body]
fn debug_quoted(s: &str) -> (r: String)
    ensures
        r@ == debug_text(s@),
{
    format!("{:?}", s)
}

/// The `Debug` rendering of an election state.
pub open spec fn state_debug(v: ElectionStateView) -> Seq<char> {
    match v {
        ElectionStateView::Leader => "Leader"@,
        ElectionStateView::Candidate => "Candidate"@,
        ElectionStateView::Follower(l) => "Follower { leader_id: "@ + debug_text(l) + " }"@,
        ElectionStateView::NoLeader => "NoLeader"@,
    }
}

/// The message of a refused `win_election` for a shard with no state.
pub open spec fn no_state_message(shard_id: u64) -> Seq<char> {
    "Cannot win election for shard "@ + decimal(shard_id as nat)
        + ": no election state exists"@
}

/// The message of a refused `win_election` for a shard in state `v`.
pub open spec fn wrong_state_message(shard_id: u64, v: ElectionStateView) -> Seq<char> {
    "Cannot win election for shard "@ + decimal(shard_id as nat) + ": current state is "@
        + state_debug(v) + ", expected Candidate"@
}

/// The value of a list of per-shard states.
pub open spec fn state_views(s: Seq<(u64, ElectionState)>) -> Seq<(u64, ElectionStateView)> {
    s.map_values(|p: (u64, ElectionState)| (p.0, p.1@))
}

/// The second components of a keyed map of pairs.
pub open spec fn seconds<V>(m: Map<u64, (u64, V)>) -> Map<u64, V> {
    Map::new(|k: u64| m.contains_key(k), |k: u64| m[k].1)
}

/// The second components of a keyed map of pairs, for any key type.
pub open spec fn seconds_of<K, V>(m: Map<K, (K, V)>) -> Map<K, V> {
    Map::new(|k: K| m.contains_key(k), |k: K| m[k].1)
}

/// The state counts as an elected leader (this node or another).
pub open spec fn is_elected(v: ElectionStateView) -> bool {
    v is Leader || v is Follower
}

/// The leader of shard `k` counts as dead at time `now` (nanoseconds) under
/// heartbeat times `h` and a timeout of `timeout_ms` milliseconds: it never
/// sent a heartbeat, or more than the timeout has passed since its last one.
pub open spec fn leader_timed_out(h: Map<u64, u128>, k: u64, now: u128, timeout_ms: u64) -> bool {
    !h.contains_key(k) || now - h[k] > timeout_ms as int * 1_000_000
}

/// In-memory leader election manager: one election state per shard and the
/// time of the last leader heartbeat per shard. Times are readings of a
/// monotonic clock in nanoseconds, handed in by the caller.
pub struct LeaderElection {
    shard_states: Vec<(u64, ElectionState)>,
    node_id: String,
    election_timeout_ms: u64,
    last_leader_heartbeat: Vec<(u64, u128)>,
}

impl LeaderElection {
    /// No shard appears twice, in either table.
    pub closed spec fn wf(&self) -> bool {
        &&& unique_keys(state_views(self.shard_states@), first_key())
        &&& unique_keys(self.last_leader_heartbeat@, first_key())
    }

    /// The election state of each shard that has one.
    pub closed spec fn states(&self) -> Map<u64, ElectionStateView> {
        seconds(keyed_map(state_views(self.shard_states@), first_key()))
    }

    /// The time of the last recorded leader heartbeat of each shard that has one.
    pub closed spec fn heartbeats(&self) -> Map<u64, u128> {
        seconds(keyed_map(self.last_leader_heartbeat@, first_key()))
    }

    /// This node's id.
    pub closed spec fn node_id_spec(&self) -> Seq<char> {
        self.node_id@
    }

    /// The election timeout in milliseconds.
    pub closed spec fn timeout_spec(&self) -> u64 {
        self.election_timeout_ms
    }

    /// The election state of a shard (`NoLeader` when it has none).
    pub open spec fn state_of(&self, shard_id: u64) -> ElectionStateView {
        if self.states().contains_key(shard_id) {
            self.states()[shard_id]
        } else {
            ElectionStateView::NoLeader
        }
    }

    /// The heartbeat of a leader last seen `elapsed_nanos` ago is overdue.
    pub open spec fn overdue(&self, elapsed_nanos: u128) -> bool {
        elapsed_nanos > self.timeout_spec() as int * 1_000_000
    }

    /// The leader of a shard counts as dead at time `now`: no heartbeat was
    /// ever recorded for it, or more than the election timeout has passed
    /// since the last one.
    pub open spec fn timed_out(&self, shard_id: u64, now: u128) -> bool {
        leader_timed_out(self.heartbeats(), shard_id, now, self.timeout_spec())
    }

    /// Create a new `LeaderElection` for the given node.
    ///
    /// `election_timeout_ms` is the duration after which a leader is
    /// considered dead if no heartbeat is received.
    pub fn new(node_id: &str, election_timeout_ms: u64) -> (r: Self)
        ensures
            r.wf(),
            r.states() == Map::<u64, ElectionStateView>::empty(),
            r.heartbeats() == Map::<u64, u128>::empty(),
            r.node_id_spec() == node_id@,
            r.timeout_spec() == election_timeout_ms,
    {
        let r = LeaderElection {
            shard_states: Vec::new(),
            node_id: owned(node_id),
            election_timeout_ms,
            last_leader_heartbeat: Vec::new(),
        };
        proof {
            assert(state_views(r.shard_states@) =~= Seq::<(u64, ElectionStateView)>::empty());
            assert(r.states() =~= Map::<u64, ElectionStateView>::empty());
            assert(r.heartbeats() =~= Map::<u64, u128>::empty());
        }
        r
    }

    /// Return this node's ID.
    pub fn node_id(&self) -> (r: &str)
        ensures
            r@ == self.node_id_spec(),
    {
        self.node_id.as_str()
    }

    /// Return the election timeout in milliseconds.
    pub fn election_timeout_ms(&self) -> (r: u64)
        ensures
            r == self.timeout_spec(),
    {
        self.election_timeout_ms
    }

    proof fn lemma_states_index(&self)
        requires
            self.wf(),
        ensures
            forall|j: int|
                0 <= j < self.shard_states.len() ==> #[trigger] self.states().contains_key(
                    self.shard_states@[j].0,
                ) && self.states()[self.shard_states@[j].0] == self.shard_states@[j].1@,
            forall|k: u64|
                #[trigger] self.states().contains_key(k) ==> exists|j: int|
                    0 <= j < self.shard_states.len() && #[trigger] self.shard_states@[j].0 == k,
    {
        let sv = state_views(self.shard_states@);
        lemma_keyed_map_index(sv, first_key());
        assert forall|j: int| 0 <= j < self.shard_states.len() implies #[trigger] self.states().contains_key(
            self.shard_states@[j].0,
        ) && self.states()[self.shard_states@[j].0] == self.shard_states@[j].1@ by {
            assert(sv[j] == (self.shard_states@[j].0, self.shard_states@[j].1@));
            assert(has_key(sv, first_key(), self.shard_states@[j].0));
        }
        assert forall|k: u64| #[trigger] self.states().contains_key(k) implies exists|j: int|
            0 <= j < self.shard_states.len() && #[trigger] self.shard_states@[j].0 == k by {
            let j = choose|j: int| 0 <= j < sv.len() && first_key()(#[trigger] sv[j]) == k;
            assert(sv[j].0 == self.shard_states@[j].0);
        }
    }

    /// Only finitely many shards have a state.
    pub proof fn lemma_states_finite(&self)
        ensures
            self.states().dom().finite(),
    {
        lemma_keyed_map_index(state_views(self.shard_states@), first_key());
        assert(self.states().dom() =~= keyed_map(state_views(self.shard_states@), first_key()).dom());
    }

    /// Set the state of a shard.
    fn put_state(&mut self, shard_id: u64, state: ElectionState)
        requires
            old(self).wf(),
        ensures
            final(self).wf(),
            final(self).states() == old(self).states().insert(shard_id, state@),
            final(self).heartbeats() == old(self).heartbeats(),
            final(self).node_id_spec() == old(self).node_id_spec(),
            final(self).timeout_spec() == old(self).timeout_spec(),
    {
        let ghost sv = state_views(self.shard_states@);
        let ghost x = (shard_id, state@);
        match find_u64(&self.shard_states, shard_id) {
            Some(i) => {
                self.shard_states.set(i, (shard_id, state));
                proof {
                    assert(state_views(self.shard_states@) =~= sv.update(i as int, x));
                    lemma_keyed_update(sv, first_key(), i as int, x);
                }
            },
            None => {
                self.shard_states.push((shard_id, state));
                proof {
                    assert(state_views(self.shard_states@) =~= sv.push(x));
                    assert(!has_key(sv, first_key(), shard_id)) by {
                        if has_key(sv, first_key(), shard_id) {
                            let j = choose|j: int| 0 <= j < sv.len() && first_key()(#[trigger] sv[j]) == shard_id;
                            assert(sv[j].0 == old(self).shard_states@[j].0);
                        }
                    }
                    lemma_keyed_push(sv, first_key(), x);
                }
            },
        }
        proof {
            assert(self.states() =~= old(self).states().insert(shard_id, state@));
        }
    }

    /// Set the last heartbeat time of a shard.
    fn put_heartbeat(&mut self, shard_id: u64, at: u128)
        requires
            old(self).wf(),
        ensures
            final(self).wf(),
            final(self).heartbeats() == old(self).heartbeats().insert(shard_id, at),
            final(self).states() == old(self).states(),
            final(self).node_id_spec() == old(self).node_id_spec(),
            final(self).timeout_spec() == old(self).timeout_spec(),
    {
        let ghost hv = self.last_leader_heartbeat@;
        match find_u64(&self.last_leader_heartbeat, shard_id) {
            Some(i) => {
                self.last_leader_heartbeat.set(i, (shard_id, at));
                proof {
                    lemma_keyed_update(hv, first_key(), i as int, (shard_id, at));
                }
            },
            None => {
                self.last_leader_heartbeat.push((shard_id, at));
                proof {
                    assert(!has_key(hv, first_key(), shard_id));
                    lemma_keyed_push(hv, first_key(), (shard_id, at));
                }
            },
        }
        proof {
            assert(self.heartbeats() =~= old(self).heartbeats().insert(shard_id, at));
        }
    }

    /// Get the election state for a shard.
    ///
    /// Returns [`ElectionState::NoLeader`] if the shard has no state.
    pub fn state(&self, shard_id: u64) -> (r: ElectionState)
        requires
            self.wf(),
        ensures
            r@ == self.state_of(shard_id),
    {
        proof {
            self.lemma_states_index();
        }
        match find_u64(&self.shard_states, shard_id) {
            Some(i) => self.shard_states[i].1.duplicate(),
            None => ElectionState::NoLeader,
        }
    }

    /// Set a shard's leader (called when this node learns of a leader).
    ///
    /// Transition: any state → `Follower`. Does not record a heartbeat.
    pub fn set_leader(&mut self, shard_id: u64, leader_id: &str)
        requires
            old(self).wf(),
        ensures
            final(self).wf(),
            final(self).states() == old(self).states().insert(
                shard_id,
                ElectionStateView::Follower(leader_id@),
            ),
            final(self).heartbeats() == old(self).heartbeats(),
            final(self).node_id_spec() == old(self).node_id_spec(),
            final(self).timeout_spec() == old(self).timeout_spec(),
    {
        self.put_state(shard_id, ElectionState::Follower { leader_id: owned(leader_id) });
    }

    /// Become a candidate for a shard (start an election).
    ///
    /// Transition: any state → `Candidate`.
    pub fn become_candidate(&mut self, shard_id: u64)
        requires
            old(self).wf(),
        ensures
            final(self).wf(),
            final(self).states() == old(self).states().insert(
                shard_id,
                ElectionStateView::Candidate,
            ),
            final(self).heartbeats() == old(self).heartbeats(),
            final(self).node_id_spec() == old(self).node_id_spec(),
            final(self).timeout_spec() == old(self).timeout_spec(),
    {
        self.put_state(shard_id, ElectionState::Candidate);
    }

    /// Win the election for a shard.
    ///
    /// Transition: `Candidate` → `Leader`, recording a leader heartbeat at
    /// `now` (the time of the call); a `Leader` stays `Leader` (idempotent).
    /// Any other state, or no state, is refused with `ServiceError` and
    /// nothing changes.
    pub fn win_election(&mut self, shard_id: u64, now: u128) -> (r: Result<(), Error>)
        requires
            old(self).wf(),
        ensures
            final(self).wf(),
            final(self).node_id_spec() == old(self).node_id_spec(),
            final(self).timeout_spec() == old(self).timeout_spec(),
            final(self).states() == (if old(self).state_of(shard_id) is Candidate {
                old(self).states().insert(shard_id, ElectionStateView::Leader)
            } else {
                old(self).states()
            }),
            old(self).state_of(shard_id) is Candidate ==> final(self).heartbeats()
                == old(self).heartbeats().insert(shard_id, now),
            !(old(self).state_of(shard_id) is Candidate) ==> final(self).heartbeats() == old(
                self,
            ).heartbeats(),
            (old(self).state_of(shard_id) is Candidate || old(self).state_of(shard_id) is Leader)
                <==> r is Ok,
            !old(self).states().contains_key(shard_id) ==> (r matches Err(Error::ServiceError(m))
                && m@ == no_state_message(shard_id)),
            old(self).states().contains_key(shard_id) && !(old(self).state_of(shard_id) is Candidate
                || old(self).state_of(shard_id) is Leader) ==> (r matches Err(
                Error::ServiceError(m),
            ) && m@ == wrong_state_message(shard_id, old(self).states()[shard_id])),
    {
        proof {
            self.lemma_states_index();
        }
        match find_u64(&self.shard_states, shard_id) {
            Some(i) => {
                match &self.shard_states[i].1 {
                    ElectionState::Candidate => {
                        self.put_state(shard_id, ElectionState::Leader);
                        self.put_heartbeat(shard_id, now);
                        Ok(())
                    },
                    ElectionState::Leader => Ok(()),
                    ElectionState::Follower { leader_id } => {
                        let mut m = owned("Cannot win election for shard ");
                        push_decimal(&mut m, shard_id as u128);
                        push_str(&mut m, ": current state is ");
                        push_str(&mut m, "Follower { leader_id: ");
                        let q = debug_quoted(leader_id.as_str());
                        push_str(&mut m, q.as_str());
                        push_str(&mut m, " }");
                        push_str(&mut m, ", expected Candidate");
                        proof {
                            assert(m@ =~= wrong_state_message(shard_id, old(self).states()[shard_id]));
                        }
                        Err(Error::ServiceError(m))
                    },
                    ElectionState::NoLeader => {
                        let mut m = owned("Cannot win election for shard ");
                        push_decimal(&mut m, shard_id as u128);
                        push_str(&mut m, ": current state is ");
                        push_str(&mut m, "NoLeader");
                        push_str(&mut m, ", expected Candidate");
                        proof {
                            assert(m@ =~= wrong_state_message(shard_id, old(self).states()[shard_id]));
                        }
                        Err(Error::ServiceError(m))
                    },
                }
            },
            None => {
                let mut m = owned("Cannot win election for shard ");
                push_decimal(&mut m, shard_id as u128);
                push_str(&mut m, ": no election state exists");
                Err(Error::ServiceError(m))
            },
        }
    }

    /// Record a heartbeat from the leader of a shard, at time `now` (the time
    /// of the call).
    pub fn record_leader_heartbeat(&mut self, shard_id: u64, now: u128)
        requires
            old(self).wf(),
        ensures
            final(self).wf(),
            final(self).states() == old(self).states(),
            final(self).heartbeats() == old(self).heartbeats().insert(shard_id, now),
            final(self).node_id_spec() == old(self).node_id_spec(),
            final(self).timeout_spec() == old(self).timeout_spec(),
    {
        self.put_heartbeat(shard_id, now);
    }

    /// A heartbeat last seen `elapsed_nanos` nanoseconds ago has timed out:
    /// more than the election timeout has passed.
    pub fn heartbeat_overdue(&self, elapsed_nanos: u128) -> (r: bool)
        ensures
            r == self.overdue(elapsed_nanos),
    {
        elapsed_nanos > self.election_timeout_ms as u128 * 1_000_000
    }

    /// Check if a shard leader has timed out at time `now`.
    ///
    /// Returns `true` if no heartbeat was received within the election
    /// timeout. If no heartbeat has ever been recorded for the shard,
    /// returns `true` (timed out by default).
    /// The time elapsed since the last heartbeat counts as zero when `now`
    /// is not after it.
    pub fn has_leader_timed_out(&self, shard_id: u64, now: u128) -> (r: bool)
        requires
            self.wf(),
        ensures
            r == self.timed_out(shard_id, now),
            !self.heartbeats().contains_key(shard_id) ==> r,
            self.heartbeats().contains_key(shard_id) ==> r == self.overdue(
                if now >= self.heartbeats()[shard_id] { (now - self.heartbeats()[shard_id]) as u128 } else { 0 },
            ),
    {
        proof {
            lemma_keyed_map_index(self.last_leader_heartbeat@, first_key());
        }
        match find_u64(&self.last_leader_heartbeat, shard_id) {
            Some(i) => {
                let last = self.last_leader_heartbeat[i].1;
                let elapsed: u128 = if now >= last { now - last } else { 0 };
                self.heartbeat_overdue(elapsed)
            },
            None => {
                proof {
                    if has_key(self.last_leader_heartbeat@, first_key(), shard_id) {
                        let j = choose|j: int|
                            0 <= j < self.last_leader_heartbeat@.len() && first_key()(
                                #[trigger] self.last_leader_heartbeat@[j],
                            ) == shard_id;
                    }
                }
                true
            },
        }
    }

    /// List all shards where this node is the leader.
    pub fn my_leaderships(&self) -> (r: Vec<u64>)
        requires
            self.wf(),
        ensures
            r@.no_duplicates(),
            forall|k: u64| #[trigger]
                r@.contains(k) <==> (self.states().contains_key(k) && self.states()[k] is Leader),
    {
        proof {
            self.lemma_states_index();
        }
        let mut out: Vec<u64> = Vec::new();
        let n = self.shard_states.len();
        let mut i: usize = 0;
        while i < n
            invariant
                n == self.shard_states.len(),
                i <= n,
                self.wf(),
                out@.no_duplicates(),
                forall|k: u64| #[trigger]
                    out@.contains(k) <==> exists|j: int|
                        0 <= j < i && #[trigger] self.shard_states@[j].0 == k
                            && self.shard_states@[j].1 is Leader,
            decreases n - i,
        {
            let id = self.shard_states[i].0;
            let ghost before = out@;
            proof {
                self.lemma_distinct_before(i as int);
            }
            if let ElectionState::Leader = self.shard_states[i].1 {
                out.push(id);
                proof {
                    assert(!before.contains(id));
                    assert forall|a: int, b: int| 0 <= a < out@.len() && 0 <= b < out@.len() && a != b implies out@[a] != out@[b] by {
                        if b == before.len() {
                            assert(before.contains(before[a]));
                        } else if a == before.len() {
                            assert(before.contains(before[b]));
                        }
                    }
                }
            }
            proof {
                assert forall|k: u64| #[trigger]
                    out@.contains(k) <==> exists|j: int|
                        0 <= j < i + 1 && #[trigger] self.shard_states@[j].0 == k
                            && self.shard_states@[j].1 is Leader by {
                    if out@.len() > before.len() {
                        if k == id {
                            assert(out@[before.len() as int] == k);
                        }
                        if before.contains(k) {
                            let a = choose|a: int| 0 <= a < before.len() && before[a] == k;
                            assert(out@[a] == k);
                        }
                    }
                }
            }
            i = i + 1;
        }
        proof {
            assert forall|k: u64| #[trigger]
                out@.contains(k) <==> (self.states().contains_key(k) && self.states()[k] is Leader) by {
                if self.states().contains_key(k) {
                    let j = choose|j: int| 0 <= j < self.shard_states.len() && #[trigger] self.shard_states@[j].0 == k;
                }
            }
        }
        out
    }

    /// Shards of records before position `i` differ from the shard at `i`.
    proof fn lemma_distinct_before(&self, i: int)
        requires
            self.wf(),
            0 <= i < self.shard_states.len(),
        ensures
            forall|j: int| 0 <= j < i ==> #[trigger] self.shard_states@[j].0 != self.shard_states@[i].0,
    {
        let sv = state_views(self.shard_states@);
        assert forall|j: int| 0 <= j < i implies #[trigger] self.shard_states@[j].0 != self.shard_states@[i].0 by {
            assert(first_key()(sv[j]) != first_key()(sv[i]));
        }
    }

    /// List all shards where this node is a follower, with the leader ID.
    pub fn my_followerships(&self) -> (r: Vec<(u64, String)>)
        requires
            self.wf(),
        ensures
            unique_keys(r@, first_key()),
            forall|j: int|
                0 <= j < r.len() ==> #[trigger] self.states().contains_key(r@[j].0)
                    && self.states()[r@[j].0] == ElectionStateView::Follower(r@[j].1@),
            forall|k: u64|
                #[trigger] self.states().contains_key(k) && self.states()[k] is Follower
                    ==> has_key(r@, first_key(), k),
    {
        proof {
            self.lemma_states_index();
        }
        let mut out: Vec<(u64, String)> = Vec::new();
        let n = self.shard_states.len();
        let mut i: usize = 0;
        while i < n
            invariant
                n == self.shard_states.len(),
                i <= n,
                self.wf(),
                unique_keys(out@, first_key()),
                forall|j: int|
                    0 <= j < out.len() ==> #[trigger] self.states().contains_key(out@[j].0)
                        && self.states()[out@[j].0] == ElectionStateView::Follower(out@[j].1@),
                forall|j: int|
                    0 <= j < out.len() ==> exists|a: int| 0 <= a < i && #[trigger] self.shard_states@[a].0 == (#[trigger] out@[j]).0,
                forall|a: int|
                    0 <= a < i && (#[trigger] self.shard_states@[a]).1 is Follower ==> has_key(
                        out@,
                        first_key(),
                        self.shard_states@[a].0,
                    ),
                forall|j: int|
                    0 <= j < n ==> #[trigger] self.states().contains_key(self.shard_states@[j].0)
                        && self.states()[self.shard_states@[j].0] == self.shard_states@[j].1@,
            decreases n - i,
        {
            let id = self.shard_states[i].0;
            let ghost before = out@;
            proof {
                self.lemma_distinct_before(i as int);
            }
            if let ElectionState::Follower { leader_id } = &self.shard_states[i].1 {
                let l = leader_id.clone();
                out.push((id, l));
                proof {
                    assert(!has_key(before, first_key(), id)) by {
                        if has_key(before, first_key(), id) {
                            let j = choose|j: int| 0 <= j < before.len() && first_key()(#[trigger] before[j]) == id;
                            assert(out@[j] == before[j]);
                            let a = choose|a: int| 0 <= a < i && #[trigger] self.shard_states@[a].0 == out@[j].0;
                        }
                    }
                    lemma_keyed_push(before, first_key(), (id, l));
                    assert forall|j: int| 0 <= j < out.len() implies #[trigger] self.states().contains_key(out@[j].0)
                        && self.states()[out@[j].0] == ElectionStateView::Follower(out@[j].1@) by {
                        if j < before.len() {
                            assert(out@[j] == before[j]);
                        } else {
                            assert(out@[j] == (id, l));
                            assert(self.shard_states@[i as int].1@ == ElectionStateView::Follower(l@));
                        }
                    }
                    assert forall|j: int| 0 <= j < out.len() implies exists|a: int|
                        0 <= a < i + 1 && #[trigger] self.shard_states@[a].0 == (#[trigger] out@[j]).0 by {
                        if j == before.len() {
                            assert(self.shard_states@[i as int].0 == out@[j].0);
                        } else {
                            assert(out@[j] == before[j]);
                        }
                    }
                    assert forall|a: int|
                        0 <= a < i + 1 && (#[trigger] self.shard_states@[a]).1 is Follower implies has_key(
                            out@,
                            first_key(),
                            self.shard_states@[a].0,
                        ) by {
                        if a == i {
                            assert(first_key()(out@[before.len() as int]) == id);
                        } else {
                            let j = choose|j: int| 0 <= j < before.len() && first_key()(#[trigger] before[j]) == self.shard_states@[a].0;
                            assert(out@[j] == before[j]);
                        }
                    }
                }
            }
            i = i + 1;
        }
        proof {
            assert forall|k: u64|
                #[trigger] self.states().contains_key(k) && self.states()[k] is Follower implies has_key(out@, first_key(), k) by {
                let a = choose|a: int| 0 <= a < self.shard_states.len() && #[trigger] self.shard_states@[a].0 == k;
            }
        }
        out
    }

    /// Number of shards with a leader elected (either this node or another).
    pub fn elected_count(&self) -> (r: usize)
        requires
            self.wf(),
        ensures
            r == filter_map(self.states(), |v: ElectionStateView| is_elected(v)).dom().len(),
    {
        let ghost sv = state_views(self.shard_states@);
        let ghost p = |q: (u64, ElectionStateView)| is_elected(q.1);
        let ghost mut sel: Seq<(u64, ElectionStateView)> = Seq::empty();
        let mut count: usize = 0;
        let n = self.shard_states.len();
        let mut i: usize = 0;
        proof {
            assert(sv.take(0) =~= Seq::<(u64, ElectionStateView)>::empty());
            assert(keyed_map(sel, first_key()) =~= filter_map(keyed_map(sv.take(0), first_key()), p));
        }
        while i < n
            invariant
                n == self.shard_states.len(),
                i <= n,
                self.wf(),
                sv == state_views(self.shard_states@),
                p == |q: (u64, ElectionStateView)| is_elected(q.1),
                unique_keys(sel, first_key()),
                keyed_map(sel, first_key()) == filter_map(keyed_map(sv.take(i as int), first_key()), p),
                count == sel.len(),
            decreases n - i,
        {
            proof {
                lemma_filter_step(sv, first_key(), p, sel, i as int);
            }
            let elected = match &self.shard_states[i].1 {
                ElectionState::Leader => true,
                ElectionState::Follower { .. } => true,
                _ => false,
            };
            assert(elected == p(sv[i as int]));
            if elected {
                proof {
                    sel = sel.push(sv[i as int]);
                    lemma_keyed_len(sel, first_key());
                    lemma_keyed_len(sv, first_key());
                    assert(sel.len() <= n) by {
                        assert(keyed_map(sel, first_key()).dom().subset_of(
                            keyed_map(sv, first_key()).dom(),
                        )) by {
                            assert(sv.take(i + 1) == sv.take(i + 1));
                            lemma_keyed_map_index(sv.take(i + 1), first_key());
                            lemma_keyed_map_index(sv, first_key());
                            assert forall|k: u64| #[trigger] keyed_map(sel, first_key()).contains_key(k) implies keyed_map(sv, first_key()).contains_key(k) by {
                                let a = choose|a: int| 0 <= a < sv.take(i + 1).len() && first_key()(#[trigger] sv.take(i + 1)[a]) == k;
                                assert(sv.take(i + 1)[a] == sv[a]);
                                assert(has_key(sv, first_key(), k));
                            }
                        }
                        lemma_keyed_map_index(sv, first_key());
                        vstd::set_lib::lemma_len_subset(
                            keyed_map(sel, first_key()).dom(),
                            keyed_map(sv, first_key()).dom(),
                        );
                    }
                }
                count = count + 1;
            }
            i = i + 1;
        }
        proof {
            assert(sv.take(n as int) =~= sv);
            lemma_keyed_len(sel, first_key());
            assert(filter_map(self.states(), |v: ElectionStateView| is_elected(v)).dom() =~= keyed_map(
                sel,
                first_key(),
            ).dom());
        }
        count
    }
}

} // verus!
