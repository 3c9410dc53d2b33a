//! The local node's view of the cluster: its identity, the member registry,
//! the shard assignments, and the election and failover state.

use vstd::prelude::*;
use crate::discovery::{conflict_message, is_epoch_millis_text, NodeInfo, NodeInfoView, NodeRegistry, NodeStatus};
use crate::error::Error;
use crate::failover::{failover_outcome, FailoverConfig, FailoverManager};
use crate::keyed::{filter_map, keyed_map, lemma_keyed_map_index, has_key, unique_keys};
use crate::leader_election::{ElectionStateView, LeaderElection};
use crate::shard_manager::{assignment_ref_views, involves, shard_key, ShardManager};
use crate::text::owned;

verus! {

broadcast use vstd::seq_lib::group_to_multiset_ensures;

/// Local cluster node identity.
#[derive(Debug, Clone)]
pub struct NodeIdentity {
    pub node_id: String,
    pub addr: String,
}

impl NodeIdentity {
    /// Create a new node identity.
    pub fn new(node_id: &str, addr: &str) -> (r: Self)
        ensures
            r.node_id@ == node_id@,
            r.addr@ == addr@,
    {
        NodeIdentity { node_id: owned(node_id), addr: owned(addr) }
    }
}

/// `l` lists the elements of `s` in strictly increasing order.
pub open spec fn is_sorted_listing(l: Seq<u64>, s: Set<u64>) -> bool {
    &&& forall|i: int, j: int| 0 <= i < j < l.len() ==> l[i] < l[j]
    &&& l.to_set() == s
}

/// `l` is in non-decreasing order.
pub open spec fn sorted(l: Seq<u64>) -> bool {
    forall|i: int, j: int| 0 <= i < j < l.len() ==> l[i] <= l[j]
}

/// The numbers of `v` in non-decreasing order.
fn sort_ids(v: &Vec<u64>) -> (r: Vec<u64>)
    ensures
        sorted(r@),
        r@.to_multiset() == v@.to_multiset(),
{
    let mut out: Vec<u64> = Vec::new();
    let n = v.len();
    let mut i: usize = 0;
    proof {
        assert(v@.take(0) =~= Seq::<u64>::empty());
        assert(out@ =~= Seq::<u64>::empty());
    }
    while i < n
        invariant
            n == v.len(),
            i <= n,
            sorted(out@),
            out@.to_multiset() == v@.take(i as int).to_multiset(),
            out.len() == i,
        decreases n - i,
    {
        let x = v[i];
        let mut pos: usize = 0;
        while pos < out.len() && out[pos] <= x
            invariant
                pos <= out.len(),
                forall|j: int| 0 <= j < pos ==> out@[j] <= x,
            decreases out.len() - pos,
        {
            pos = pos + 1;
        }
        let ghost before = out@;
        out.insert(pos, x);
        proof {
            assert(out@ == before.insert(pos as int, x));
            assert forall|a: int, b: int| 0 <= a < b < out@.len() implies out@[a] <= out@[b] by {
                if b < pos {
                } else if b == pos {
                    assert(out@[a] == before[a]);
                } else if a == pos {
                    assert(out@[b] == before[b - 1]);
                    if pos < before.len() {
                        assert(before[pos as int] > x);
                        assert(before[pos as int] <= before[b - 1]);
                    }
                } else if a < pos {
                    assert(out@[a] == before[a] && out@[b] == before[b - 1]);
                } else {
                    assert(out@[a] == before[a - 1] && out@[b] == before[b - 1]);
                }
            }
            vstd::seq_lib::to_multiset_insert(before, pos as int, x);
            assert(v@.take(i + 1) =~= v@.take(i as int).push(x));
            vstd::seq_lib::to_multiset_build(v@.take(i as int), x);
        }
        i = i + 1;
    }
    proof {
        assert(v@.take(n as int) =~= v@);
    }
    out
}

/// Cluster membership and state as seen by the local node.
pub struct ClusterState {
    identity: NodeIdentity,
    registry: NodeRegistry,
    shards: ShardManager,
    pub leader_election: LeaderElection,
    pub failover: FailoverManager,
}

impl ClusterState {
    /// The registry and the shard assignments are well formed.
    pub open spec fn wf(&self) -> bool {
        &&& self.registry_spec().wf()
        &&& self.shards_spec().wf()
    }

    /// The shard leader election state.
    pub closed spec fn leader_election_spec(&self) -> LeaderElection {
        self.leader_election
    }

    /// The failover manager.
    pub closed spec fn failover_spec(&self) -> FailoverManager {
        self.failover
    }

    /// This node's identity.
    pub closed spec fn identity_spec(&self) -> NodeIdentity {
        self.identity
    }

    /// The member registry.
    pub closed spec fn registry_spec(&self) -> NodeRegistry {
        self.registry
    }

    /// The shard assignments.
    pub closed spec fn shards_spec(&self) -> ShardManager {
        self.shards
    }

    /// Create a new `ClusterState` for the given node identity, with a leader
    /// election of 3-second timeout and a failover manager with the default
    /// configuration.
    pub fn new(identity: NodeIdentity, registry: NodeRegistry, shard_manager: ShardManager) -> (r: Self)
        requires
            registry.wf(),
            shard_manager.wf(),
        ensures
            r.wf(),
            r.identity_spec() == identity,
            r.registry_spec() == registry,
            r.shards_spec() == shard_manager,
            r.leader_election_spec().wf(),
            r.leader_election_spec().node_id_spec() == identity.node_id@,
            r.leader_election_spec().timeout_spec() == 3000,
            r.leader_election_spec().states() == Map::<u64, ElectionStateView>::empty(),
            r.failover_spec().wf(),
            r.failover_spec().node_id_spec() == identity.node_id@,
            r.failover_spec().config_spec() == (FailoverConfig { election_timeout_ms: 3000, check_interval_ms: 500, max_promotion_lag: 100 }),
            r.failover_spec().election_spec().node_id_spec() == identity.node_id@,
            r.failover_spec().election_spec().states() == Map::<u64, ElectionStateView>::empty(),
    {
        let leader_election = LeaderElection::new(identity.node_id.as_str(), 3000);
        let failover_config = FailoverConfig::default();
        let failover = FailoverManager::new(identity.node_id.as_str(), failover_config);
        ClusterState { identity, registry, shards: shard_manager, leader_election, failover }
    }

    /// Register this node in the cluster.
    ///
    /// Creates a [`NodeInfo`] entry in the registry with the local node's
    /// identity, the current time, and the shards currently assigned to it
    /// (as leader or replica) in increasing order.
    pub fn join(&mut self) -> (r: Result<(), Error>)
        requires
            old(self).wf(),
        ensures
            final(self).wf(),
            final(self).identity_spec() == old(self).identity_spec(),
            final(self).shards_spec() == old(self).shards_spec(),
            final(self).registry_spec().timeout_secs() == old(self).registry_spec().timeout_secs(),
            ({
                let id = old(self).identity_spec().node_id@;
                let addr = old(self).identity_spec().addr@;
                let reg = old(self).registry_spec()@;
                let mine = filter_map(old(self).shards_spec().assignments(), involves(old(self).shards_spec().local_node())).dom();
                if reg.contains_key(id) && reg[id].addr != addr {
                    &&& r matches Err(Error::NodeConflict(m)) && m@ == conflict_message(id, reg[id].addr)
                    &&& final(self).registry_spec()@ == reg
                } else {
                    &&& r is Ok
                    &&& final(self).registry_spec()@.dom() == reg.dom().insert(id)
                    &&& forall|k: Seq<char>| #[trigger] reg.contains_key(k) && k != id ==> final(self).registry_spec()@[k] == reg[k]
                    &&& ({
                        let v = final(self).registry_spec()@[id];
                        &&& v.node_id == id
                        &&& v.addr == addr
                        &&& v.status == NodeStatus::Active
                        &&& is_epoch_millis_text(v.last_heartbeat)
                        &&& is_sorted_listing(v.shards, mine)
                    })
                }
            }),
    {
        let mine = self.shards.my_shards();
        let mut ids: Vec<u64> = Vec::new();
        let n = mine.len();
        let mut i: usize = 0;
        while i < n
            invariant
                n == mine.len(),
                i <= n,
                ids.len() == i,
                forall|j: int| 0 <= j < i ==> #[trigger] ids@[j] == mine@[j].shard_id,
            decreases n - i,
        {
            ids.push(mine[i].shard_id);
            i = i + 1;
        }
        let ghost me = self.shards.local_node();
        let ghost sel = filter_map(self.shards.assignments(), involves(me)).dom();
        proof {
            let mv = assignment_ref_views(mine@);
            lemma_keyed_map_index(mv, shard_key());
            assert forall|a: int, b: int| 0 <= a < b < ids@.len() implies ids@[a] != ids@[b] by {
                assert(shard_key()(mv[a]) != shard_key()(mv[b]));
            }
            assert(ids@.no_duplicates());
            assert forall|k: u64| #[trigger] ids@.contains(k) <==> sel.contains(k) by {
                if ids@.contains(k) {
                    let a = choose|a: int| 0 <= a < ids@.len() && ids@[a] == k;
                    assert(shard_key()(mv[a]) == k);
                    assert(has_key(mv, shard_key(), k));
                }
                if sel.contains(k) {
                    assert(keyed_map(mv, shard_key()).contains_key(k));
                    let a = choose|a: int| 0 <= a < mv.len() && shard_key()(#[trigger] mv[a]) == k;
                    assert(ids@[a] == k);
                }
            }
        }
        let sorted_ids = sort_ids(&ids);
        proof {
            assert forall|a: int, b: int| 0 <= a < b < sorted_ids@.len() implies sorted_ids@[a] < sorted_ids@[b] by {
                if sorted_ids@[a] == sorted_ids@[b] {
                    assert(sorted_ids@.to_multiset().count(sorted_ids@[a]) >= 2) by {
                        lemma_two_occurrences(sorted_ids@, a, b);
                    }
                    ids@.lemma_multiset_has_no_duplicates();
                }
            }
            assert forall|k: u64| #[trigger] sorted_ids@.to_set().contains(k) <==> sel.contains(k) by {
                assert(sorted_ids@.to_multiset().count(k) == ids@.to_multiset().count(k));
            }
            assert(sorted_ids@.to_set() =~= sel);
        }
        let info = NodeInfo::new(self.identity.node_id.as_str(), self.identity.addr.as_str(), sorted_ids);
        self.registry.register(info)
    }

    /// Signal that this node is leaving the cluster: it is removed from the
    /// node registry.
    pub fn leave(&mut self) -> (r: Result<(), Error>)
        requires
            old(self).wf(),
        ensures
            r is Ok,
            final(self).wf(),
            final(self).identity_spec() == old(self).identity_spec(),
            final(self).shards_spec() == old(self).shards_spec(),
            final(self).registry_spec()@ == old(self).registry_spec()@.remove(old(self).identity_spec().node_id@),
            final(self).registry_spec().timeout_secs() == old(self).registry_spec().timeout_secs(),
            final(self).leader_election_spec() == old(self).leader_election_spec(),
            final(self).failover_spec() == old(self).failover_spec(),
    {
        self.registry.remove_node(self.identity.node_id.as_str());
        Ok(())
    }

    /// Get this node's identity.
    pub fn identity(&self) -> (r: &NodeIdentity)
        ensures
            *r == self.identity_spec(),
    {
        &self.identity
    }

    /// Get the node registry.
    pub fn registry(&self) -> (r: &NodeRegistry)
        ensures
            *r == self.registry_spec(),
    {
        &self.registry
    }

    /// Get the shard leader election state.
    pub fn leader_election(&self) -> (r: &LeaderElection)
        ensures
            *r == self.leader_election_spec(),
    {
        &self.leader_election
    }

    /// Get the failover manager.
    pub fn failover(&self) -> (r: &FailoverManager)
        ensures
            *r == self.failover_spec(),
    {
        &self.failover
    }

    /// Get the shard manager.
    pub fn shards(&self) -> (r: &ShardManager)
        ensures
            *r == self.shards_spec(),
    {
        &self.shards
    }

    /// Run one failover check, at time `now` (monotonic nanoseconds), of this
    /// node's failover manager against the shard assignments (see
    /// [`FailoverManager::check_and_failover`]).
    pub fn check_and_failover(&mut self, now: u128) -> (r: Result<Vec<u64>, Error>)
        requires
            old(self).wf(),
            old(self).failover_spec().wf(),
        ensures
            final(self).wf(),
            final(self).failover_spec().wf(),
            r is Ok,
            final(self).identity_spec() == old(self).identity_spec(),
            final(self).registry_spec() == old(self).registry_spec(),
            final(self).leader_election_spec() == old(self).leader_election_spec(),
            final(self).failover_spec().engines() == old(self).failover_spec().engines(),
            final(self).failover_spec().config_spec() == old(self).failover_spec().config_spec(),
            final(self).failover_spec().node_id_spec() == old(self).failover_spec().node_id_spec(),
            final(self).shards_spec().local_node() == old(self).shards_spec().local_node(),
            r matches Ok(p) ==> failover_outcome(
                old(self).failover_spec().election_spec().states(),
                old(self).failover_spec().election_spec().heartbeats(),
                old(self).shards_spec().assignments(),
                |k: u64| old(self).failover_spec().eligible_for(k),
                old(self).failover_spec().node_id_spec(),
                old(self).failover_spec().election_spec().timeout_spec(),
                now,
                p@,
                final(self).failover_spec().election_spec().states(),
                final(self).failover_spec().election_spec().heartbeats(),
                final(self).shards_spec().assignments(),
            ),
    {
        self.failover.check_and_failover(&mut self.shards, now)
    }
}

/// Two positions holding the same value count twice in the multiset.
proof fn lemma_two_occurrences(s: Seq<u64>, a: int, b: int)
    requires
        0 <= a < b < s.len(),
        s[a] == s[b],
    ensures
        s.to_multiset().count(s[a]) >= 2,
    decreases s.len(),
{
    let x = s[a];
    let t = s.drop_last();
    vstd::seq_lib::to_multiset_build(t, s.last());
    assert(t.push(s.last()) =~= s);
    if b == s.len() - 1 {
        assert(t[a] == x);
        assert(t.to_multiset().count(x) >= 1) by {
            assert(t.contains(x));
        }
    } else {
        lemma_two_occurrences(t, a, b);
        assert(t[a] == x);
    }
}

} // verus!
