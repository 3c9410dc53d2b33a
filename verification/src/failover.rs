//! Leader failover for shard-based clusters: detecting failed shard leaders,
//! checking which followers may be promoted, and promoting them.

use vstd::prelude::*;
use crate::error::Error;
use crate::keyed::{
    find_u64, first_key, has_key, keyed_map, lemma_keyed_map_index, lemma_keyed_push,
    lemma_keyed_remove, lemma_keyed_update, unique_keys,
};
use crate::leader_election::{leader_timed_out, seconds, ElectionStateView, LeaderElection};
use crate::replication::ReplicationEngine;
use crate::shard_manager::{ShardAssignmentView, ShardManager};
use crate::text::owned;

verus! {

/// Configuration for failover behavior.
#[derive(Debug, Clone, Copy)]
pub struct FailoverConfig {
    /// How long without leader heartbeat before triggering election (ms).
    pub election_timeout_ms: u64,
    /// How often to check for leader failures (ms).
    pub check_interval_ms: u64,
    /// Max replication lag for a follower to be eligible for promotion.
    pub max_promotion_lag: u64,
}

impl Default for FailoverConfig {
    fn default() -> (r: Self)
        ensures
            r.election_timeout_ms == 3000,
            r.check_interval_ms == 500,
            r.max_promotion_lag == 100,
    {
        FailoverConfig { election_timeout_ms: 3000, check_interval_ms: 500, max_promotion_lag: 100 }
    }
}

/// A follower `node` may be promoted according to `rep`: its replication lag
/// is at most `max_lag` (an untracked node counts as lagging `u64::MAX`).
pub open spec fn promotion_eligible(rep: ReplicationEngine, node: Seq<char>, max_lag: u64) -> bool {
    if rep.replicas().contains_key(node) {
        rep.lag_of(rep.replicas()[node]) <= max_lag
    } else {
        u64::MAX <= max_lag
    }
}

/// The assignment of shard `k` to leader `node`, keeping the replicas that
/// `before` lists for it.
pub open spec fn led_by(
    before: Map<u64, ShardAssignmentView>,
    k: u64,
    node: Seq<char>,
) -> ShardAssignmentView {
    ShardAssignmentView {
        shard_id: k,
        leader: node,
        replicas: if before.contains_key(k) {
            before[k].replicas
        } else {
            Seq::empty()
        },
    }
}

/// Manages leader failure detection and follower promotion.
pub struct FailoverManager {
    election: LeaderElection,
    config: FailoverConfig,
    node_id: String,
    replications: Vec<(u64, ReplicationEngine)>,
}

impl FailoverManager {
    /// Each shard has at most one replication engine, every engine is well
    /// formed, and so is the election state.
    pub closed spec fn wf(&self) -> bool {
        &&& self.election.wf()
        &&& unique_keys(self.replications@, first_key())
        &&& forall|j: int| 0 <= j < self.replications.len() ==> (#[trigger] self.replications@[j]).1.wf()
    }

    /// The election state this manager drives.
    pub closed spec fn election_spec(&self) -> LeaderElection {
        self.election
    }

    /// The configuration.
    pub closed spec fn config_spec(&self) -> FailoverConfig {
        self.config
    }

    /// This node's id.
    pub closed spec fn node_id_spec(&self) -> Seq<char> {
        self.node_id@
    }

    /// The replication engine registered for each shard.
    pub closed spec fn engines(&self) -> Map<u64, ReplicationEngine> {
        seconds(keyed_map(self.replications@, first_key()))
    }

    /// This node may be promoted for shard `k`: an engine is registered for
    /// it and shows this node's lag within the limit.
    pub open spec fn eligible_for(&self, k: u64) -> bool {
        &&& self.engines().contains_key(k)
        &&& promotion_eligible(self.engines()[k], self.node_id_spec(), self.config_spec().max_promotion_lag)
    }

    proof fn lemma_engines_index(&self)
        requires
            self.wf(),
        ensures
            forall|j: int|
                0 <= j < self.replications.len() ==> #[trigger] self.engines().contains_key(
                    self.replications@[j].0,
                ) && self.engines()[self.replications@[j].0] == self.replications@[j].1,
            forall|k: u64| #[trigger] self.engines().contains_key(k) <==> has_key(self.replications@, first_key(), k),
            forall|k: u64| #[trigger] self.engines().contains_key(k) ==> self.engines()[k].wf(),
    {
        lemma_keyed_map_index(self.replications@, first_key());
        assert forall|j: int|
            0 <= j < self.replications.len() implies #[trigger] self.engines().contains_key(
                self.replications@[j].0,
            ) && self.engines()[self.replications@[j].0] == self.replications@[j].1 by {
            assert(has_key(self.replications@, first_key(), self.replications@[j].0));
        }
        assert forall|k: u64| #[trigger] self.engines().contains_key(k) implies self.engines()[k].wf() by {
            let j = choose|j: int| 0 <= j < self.replications@.len() && first_key()(#[trigger] self.replications@[j]) == k;
        }
    }

    /// Create a new `FailoverManager`, with a fresh election state that uses
    /// the configured election timeout.
    pub fn new(node_id: &str, config: FailoverConfig) -> (r: Self)
        ensures
            r.wf(),
            r.config_spec() == config,
            r.node_id_spec() == node_id@,
            r.election_spec().node_id_spec() == node_id@,
            r.election_spec().timeout_spec() == config.election_timeout_ms,
            r.election_spec().states() == Map::<u64, ElectionStateView>::empty(),
            r.election_spec().heartbeats() == Map::<u64, u128>::empty(),
            r.engines() == Map::<u64, ReplicationEngine>::empty(),
    {
        let r = FailoverManager {
            election: LeaderElection::new(node_id, config.election_timeout_ms),
            config,
            node_id: owned(node_id),
            replications: Vec::new(),
        };
        proof {
            assert(r.engines() =~= Map::<u64, ReplicationEngine>::empty());
        }
        r
    }

    /// The configuration.
    pub fn config(&self) -> (r: FailoverConfig)
        ensures
            r == self.config_spec(),
    {
        self.config
    }

    /// The shared election state.
    pub fn election(&self) -> (r: &LeaderElection)
        ensures
            *r == self.election_spec(),
            self.wf() ==> r.wf(),
    {
        &self.election
    }

    /// The election state, for updates.
    pub fn election_mut(&mut self) -> (r: &mut LeaderElection)
        requires
            old(self).wf(),
        ensures
            *r == old(self).election_spec(),
            final(self).election_spec() == *final(r),
            final(self).config_spec() == old(self).config_spec(),
            final(self).node_id_spec() == old(self).node_id_spec(),
            final(self).engines() == old(self).engines(),
            final(r).wf() ==> final(self).wf(),
    {
        &mut self.election
    }

    /// Register a replication engine for a shard, replacing any earlier one.
    pub fn set_replication_engine(&mut self, shard_id: u64, replication: ReplicationEngine)
        requires
            old(self).wf(),
            replication.wf(),
        ensures
            final(self).wf(),
            final(self).engines() == old(self).engines().insert(shard_id, replication),
            final(self).election_spec() == old(self).election_spec(),
            final(self).config_spec() == old(self).config_spec(),
            final(self).node_id_spec() == old(self).node_id_spec(),
    {
        let ghost s = self.replications@;
        let ghost x = (shard_id, replication);
        match find_u64(&self.replications, shard_id) {
            Some(i) => {
                self.replications.set(i, (shard_id, replication));
                proof {
                    lemma_keyed_update(s, first_key(), i as int, x);
                }
            },
            None => {
                self.replications.push((shard_id, replication));
                proof {
                    assert(!has_key(s, first_key(), shard_id));
                    lemma_keyed_push(s, first_key(), x);
                }
            },
        }
        proof {
            assert(self.engines() =~= old(self).engines().insert(shard_id, x.1));
        }
    }

    /// Remove the replication engine for a shard.
    pub fn remove_replication_engine(&mut self, shard_id: u64)
        requires
            old(self).wf(),
        ensures
            final(self).wf(),
            final(self).engines() == old(self).engines().remove(shard_id),
            final(self).election_spec() == old(self).election_spec(),
            final(self).config_spec() == old(self).config_spec(),
            final(self).node_id_spec() == old(self).node_id_spec(),
    {
        let ghost s = self.replications@;
        match find_u64(&self.replications, shard_id) {
            Some(i) => {
                self.replications.remove(i);
                proof {
                    lemma_keyed_remove(s, first_key(), i as int);
                    assert(self.engines() =~= old(self).engines().remove(shard_id));
                }
            },
            None => {
                proof {
                    lemma_keyed_map_index(s, first_key());
                    assert(self.engines() =~= old(self).engines().remove(shard_id));
                }
            },
        }
    }

    /// Check if this node is eligible to become leader for a shard: its
    /// replication lag in `replication` is within `max_promotion_lag`.
    pub fn is_eligible_for_promotion(&self, _shard_id: u64, replication: &ReplicationEngine) -> (r:
        bool)
        requires
            replication.wf(),
        ensures
            r == promotion_eligible(*replication, self.node_id_spec(), self.config_spec().max_promotion_lag),
    {
        let lag = match replication.replication_lag(self.node_id.as_str()) {
            Some(l) => l,
            None => u64::MAX,
        };
        lag <= self.config.max_promotion_lag
    }

    /// This node may be promoted for `shard_id` under the registered engine.
    fn eligible(&self, shard_id: u64) -> (r: bool)
        requires
            self.wf(),
        ensures
            r == self.eligible_for(shard_id),
    {
        proof {
            self.lemma_engines_index();
        }
        match find_u64(&self.replications, shard_id) {
            Some(i) => {
                proof {
                    assert(self.engines().contains_key(self.replications@[i as int].0));
                }
                self.is_eligible_for_promotion(shard_id, &self.replications[i].1)
            },
            None => {
                proof {
                    if has_key(self.replications@, first_key(), shard_id) {
                        let j = choose|j: int| 0 <= j < self.replications@.len() && first_key()(#[trigger] self.replications@[j]) == shard_id;
                    }
                }
                false
            },
        }
    }

    /// Promotion eligibility for every shard this node follows, as
    /// `(shard_id, is_eligible)` pairs, one per followed shard.
    pub fn promotion_candidates(&self) -> (r: Vec<(u64, bool)>)
        requires
            self.wf(),
        ensures
            unique_keys(r@, first_key()),
            forall|j: int|
                0 <= j < r.len() ==> #[trigger] self.election_spec().states().contains_key(r@[j].0)
                    && self.election_spec().states()[r@[j].0] is Follower && r@[j].1
                    == self.eligible_for(r@[j].0),
            forall|k: u64|
                #[trigger] self.election_spec().states().contains_key(k)
                    && self.election_spec().states()[k] is Follower ==> has_key(r@, first_key(), k),
    {
        let fl = self.election.my_followerships();
        let mut out: Vec<(u64, bool)> = Vec::new();
        let n = fl.len();
        let mut i: usize = 0;
        while i < n
            invariant
                n == fl.len(),
                i <= n,
                self.wf(),
                out.len() == i,
                forall|j: int| 0 <= j < i ==> #[trigger] out@[j] == (fl@[j].0, self.eligible_for(fl@[j].0)),
            decreases n - i,
        {
            let k = fl[i].0;
            let e = self.eligible(k);
            let ghost before = out@;
            out.push((k, e));
            proof {
                assert forall|j: int| 0 <= j < i + 1 implies #[trigger] out@[j] == (fl@[j].0, self.eligible_for(fl@[j].0)) by {
                    if j < i {
                        assert(out@[j] == before[j]);
                    } else {
                        assert(out@[j] == (k, e));
                        assert(k == fl@[j].0);
                    }
                }
            }
            i = i + 1;
        }
        proof {
            assert forall|a: int, b: int| 0 <= a < b < out@.len() implies first_key()(#[trigger] out@[a]) != first_key()(#[trigger] out@[b]) by {
                assert(first_key()(fl@[a]) != first_key()(fl@[b]));
            }
            assert forall|k: u64|
                #[trigger] self.election_spec().states().contains_key(k)
                    && self.election_spec().states()[k] is Follower implies has_key(out@, first_key(), k) by {
                let j = choose|j: int| 0 <= j < fl@.len() && first_key()(#[trigger] fl@[j]) == k;
                assert(first_key()(out@[j]) == k);
            }
        }
        out
    }

    /// Promote this node to leader for a shard, if eligible.
    ///
    /// When eligible, the shard's election state becomes `Candidate` and then
    /// `Leader` with a leader heartbeat at `now` (the time of the call), and
    /// `shards` assigns the shard to this node, and the result is `Ok(true)`;
    /// otherwise nothing changes and the result is `Ok(false)`.
    pub fn promote_to_leader(&mut self, shard_id: u64, shards: &mut ShardManager, now: u128) -> (r: Result<bool, Error>)
        requires
            old(self).wf(),
            old(shards).wf(),
        ensures
            final(self).wf(),
            final(shards).wf(),
            r == Ok::<bool, Error>(old(self).eligible_for(shard_id)),
            final(self).engines() == old(self).engines(),
            final(self).config_spec() == old(self).config_spec(),
            final(self).node_id_spec() == old(self).node_id_spec(),
            final(self).election_spec().node_id_spec() == old(self).election_spec().node_id_spec(),
            final(self).election_spec().timeout_spec() == old(self).election_spec().timeout_spec(),
            old(self).eligible_for(shard_id) ==> final(self).election_spec().states() == old(self).election_spec().states().insert(shard_id, ElectionStateView::Leader)
                && final(self).election_spec().heartbeats() == old(self).election_spec().heartbeats().insert(shard_id, now)
                && final(shards).assignments() == old(shards).assignments().insert(shard_id, led_by(old(shards).assignments(), shard_id, old(self).node_id_spec())),
            !old(self).eligible_for(shard_id) ==> final(self).election_spec() == old(self).election_spec() && final(shards).assignments() == old(shards).assignments(),
            final(shards).local_node() == old(shards).local_node(),
    {
        if !self.eligible(shard_id) {
            return Ok(false);
        }
        self.election.become_candidate(shard_id);
        match self.election.win_election(shard_id, now) {
            Ok(()) => {},
            Err(e) => {
                return Err(e);
            },
        }
        match shards.assign_shard(shard_id, self.node_id.as_str()) {
            Ok(()) => {},
            Err(e) => {
                return Err(e);
            },
        }
        proof {
            assert(self.election.states() =~= old(self).election.states().insert(shard_id, ElectionStateView::Leader));
        }
        Ok(true)
    }

    /// Check all shards for leader failures at time `now` (a reading of the
    /// monotonic clock in nanoseconds, taken by the caller), and promote this
    /// node where it is eligible.
    ///
    /// Exactly the shards this node follows whose leader is dead at `now`
    /// (no heartbeat ever, or none within the election timeout) and for
    /// which it is eligible are promoted: the shard's state becomes
    /// `Candidate` and then `Leader` with a heartbeat at `now`, and `shards`
    /// assigns the shard to this node. Returns the promoted shards, each once.
    pub fn check_and_failover(&mut self, shards: &mut ShardManager, now: u128) -> (r: Result<Vec<u64>, Error>)
        requires
            old(self).wf(),
            old(shards).wf(),
        ensures
            final(self).wf(),
            final(shards).wf(),
            final(self).engines() == old(self).engines(),
            final(self).config_spec() == old(self).config_spec(),
            final(self).node_id_spec() == old(self).node_id_spec(),
            final(self).election_spec().node_id_spec() == old(self).election_spec().node_id_spec(),
            final(self).election_spec().timeout_spec() == old(self).election_spec().timeout_spec(),
            final(shards).local_node() == old(shards).local_node(),
            r is Ok,
            r matches Ok(p) ==> failover_outcome(
                old(self).election_spec().states(),
                old(self).election_spec().heartbeats(),
                old(shards).assignments(),
                |k: u64| old(self).eligible_for(k),
                old(self).node_id_spec(),
                old(self).election_spec().timeout_spec(),
                now,
                p@,
                final(self).election_spec().states(),
                final(self).election_spec().heartbeats(),
                final(shards).assignments(),
            ),
    {
        let ghost e0 = self.election.states();
        let ghost h0 = self.election.heartbeats();
        let ghost a0 = shards.assignments();
        let ghost el = |k: u64| self.eligible_for(k);
        let ghost me = self.node_id@;
        let ghost t = self.election.timeout_spec();
        let fl = self.election.my_followerships();
        let mut promoted: Vec<u64> = Vec::new();
        let n = fl.len();
        let mut i: usize = 0;
        proof {
            assert forall|j: int| 0 <= j < n implies #[trigger] e0.contains_key(fl@[j].0) && e0[fl@[j].0] is Follower by {
                assert(self.election.states().contains_key(fl@[j].0));
            }
            assert(self.election.states() =~= promoted_states(e0, promoted@));
            assert(shards.assignments() =~= promoted_assignments(a0, promoted@, me));
            assert(self.election.heartbeats() =~= promoted_heartbeats(h0, promoted@, now));
        }
        while i < n
            invariant
                n == fl.len(),
                i <= n,
                self.wf(),
                shards.wf(),
                shards.local_node() == old(shards).local_node(),
                me == self.node_id@,
                self.engines() == old(self).engines(),
                self.config == old(self).config,
                self.node_id == old(self).node_id,
                self.election.node_id_spec() == old(self).election.node_id_spec(),
                self.election.timeout_spec() == old(self).election.timeout_spec(),
                t == old(self).election.timeout_spec(),
                el == (|k: u64| old(self).eligible_for(k)),
                forall|k: u64| #[trigger] el(k) == self.eligible_for(k),
                unique_keys(fl@, first_key()),
                forall|j: int| 0 <= j < n ==> #[trigger] e0.contains_key(fl@[j].0) && e0[fl@[j].0] is Follower,
                promoted@.no_duplicates(),
                forall|k: u64| #[trigger] promoted@.contains(k) ==> exists|j: int| 0 <= j < i && #[trigger] fl@[j].0 == k,
                forall|k: u64| #[trigger] promoted@.contains(k) ==> e0.contains_key(k) && e0[k] is Follower && el(k)
                    && leader_timed_out(h0, k, now, t),
                forall|j: int| 0 <= j < i && el(#[trigger] fl@[j].0) && leader_timed_out(h0, fl@[j].0, now, t)
                    ==> promoted@.contains(fl@[j].0),
                self.election.states() == promoted_states(e0, promoted@),
                self.election.heartbeats() == promoted_heartbeats(h0, promoted@, now),
                shards.assignments() == promoted_assignments(a0, promoted@, me),
            decreases n - i,
        {
            let k = fl[i].0;
            proof {
                assert forall|j: int| 0 <= j < i implies #[trigger] fl@[j].0 != k by {
                    assert(first_key()(fl@[j]) != first_key()(fl@[i as int]));
                }
                assert(!promoted@.contains(k)) by {
                    if promoted@.contains(k) {
                        let j = choose|j: int| 0 <= j < i && #[trigger] fl@[j].0 == k;
                        assert(fl@[j].0 != k);
                    }
                }
            }
            proof {
                assert(self.election.heartbeats().contains_key(k) == h0.contains_key(k));
                assert(h0.contains_key(k) ==> self.election.heartbeats()[k] == h0[k]);
            }
            let timed_out = self.election.has_leader_timed_out(k, now);
            proof {
                assert(timed_out == leader_timed_out(h0, k, now, t));
            }
            if timed_out {
                let e = self.eligible(k);
                if e {
                    proof {
                        assert(e0.contains_key(fl@[i as int].0));
                        assert(el(k));
                    }
                    self.election.become_candidate(k);
                    match self.election.win_election(k, now) {
                        Ok(()) => {},
                        Err(err) => {
                            return Err(err);
                        },
                    }
                    match shards.assign_shard(k, self.node_id.as_str()) {
                        Ok(()) => {},
                        Err(err) => {
                            return Err(err);
                        },
                    }
                    let ghost p_before = promoted@;
                    promoted.push(k);
                    proof {
                        assert forall|a: int, b: int| 0 <= a < promoted@.len() && 0 <= b < promoted@.len() && a != b implies promoted@[a] != promoted@[b] by {
                            if b == p_before.len() {
                                assert(p_before.contains(p_before[a]));
                            } else if a == p_before.len() {
                                assert(p_before.contains(p_before[b]));
                            }
                        }
                        assert forall|x: u64| #[trigger] promoted@.contains(x) <==> (p_before.contains(x) || x == k) by {
                            if x == k {
                                assert(promoted@[p_before.len() as int] == k);
                            }
                            if p_before.contains(x) {
                                let a = choose|a: int| 0 <= a < p_before.len() && p_before[a] == x;
                                assert(promoted@[a] == x);
                            }
                        }
                        assert(self.election.states() =~= promoted_states(e0, promoted@));
                        assert(shards.assignments() =~= promoted_assignments(a0, promoted@, me));
                        assert(self.election.heartbeats() =~= promoted_heartbeats(h0, promoted@, now));
                        assert forall|x: u64| #[trigger] promoted@.contains(x) implies exists|j: int| 0 <= j < i + 1 && #[trigger] fl@[j].0 == x by {
                            if x == k {
                                assert(fl@[i as int].0 == x);
                            } else {
                                let j = choose|j: int| 0 <= j < i && #[trigger] fl@[j].0 == x;
                            }
                        }
                    }
                }
            }
            proof {
                assert forall|j: int| 0 <= j < i + 1 && el(#[trigger] fl@[j].0) && leader_timed_out(h0, fl@[j].0, now, t)
                    implies promoted@.contains(fl@[j].0) by {
                }
            }
            i = i + 1;
        }
        proof {
            assert forall|k: u64| e0.contains_key(k) && e0[k] is Follower && el(k) && leader_timed_out(h0, k, now, t)
                implies #[trigger] promoted@.contains(k) by {
                let j = choose|j: int| 0 <= j < fl@.len() && first_key()(#[trigger] fl@[j]) == k;
                assert(fl@[j].0 == k);
            }
        }
        Ok(promoted)
    }

}

/// The election states after promoting this node for the shards of `p`.
pub open spec fn promoted_states(
    e0: Map<u64, ElectionStateView>,
    p: Seq<u64>,
) -> Map<u64, ElectionStateView> {
    Map::new(
        |k: u64| e0.contains_key(k),
        |k: u64|
            if p.contains(k) {
                ElectionStateView::Leader
            } else {
                e0[k]
            },
    )
}

/// The shard assignments after this node `me` takes the lead of the shards of `p`.
pub open spec fn promoted_assignments(
    a0: Map<u64, ShardAssignmentView>,
    p: Seq<u64>,
    me: Seq<char>,
) -> Map<u64, ShardAssignmentView> {
    Map::new(
        |k: u64| a0.contains_key(k) || p.contains(k),
        |k: u64|
            if p.contains(k) {
                led_by(a0, k, me)
            } else {
                a0[k]
            },
    )
}

/// The heartbeat times after the shards of `p` get a heartbeat at `now`.
pub open spec fn promoted_heartbeats(h0: Map<u64, u128>, p: Seq<u64>, now: u128) -> Map<u64, u128> {
    Map::new(
        |k: u64| h0.contains_key(k) || p.contains(k),
        |k: u64|
            if p.contains(k) {
                now
            } else {
                h0[k]
            },
    )
}

/// What a failover check at time `now` does: `p` lists, once each, exactly
/// the shards this node followed, may be promoted for, and whose leader is
/// dead at `now` under a timeout of `timeout_ms`; those shards become led by
/// this node, in the election states and in the shard assignments, and get a
/// heartbeat at `now`; nothing else changes.
pub open spec fn failover_outcome(
    e0: Map<u64, ElectionStateView>,
    h0: Map<u64, u128>,
    a0: Map<u64, ShardAssignmentView>,
    eligible: spec_fn(u64) -> bool,
    me: Seq<char>,
    timeout_ms: u64,
    now: u128,
    p: Seq<u64>,
    e1: Map<u64, ElectionStateView>,
    h1: Map<u64, u128>,
    a1: Map<u64, ShardAssignmentView>,
) -> bool {
    &&& p.no_duplicates()
    &&& forall|k: u64|
        #[trigger] p.contains(k) <==> (e0.contains_key(k) && e0[k] is Follower && eligible(k)
            && leader_timed_out(h0, k, now, timeout_ms))
    &&& e1 == promoted_states(e0, p)
    &&& a1 == promoted_assignments(a0, p, me)
    &&& h1 == promoted_heartbeats(h0, p, now)
}

} // verus!
