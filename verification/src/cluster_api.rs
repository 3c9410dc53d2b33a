//! What the cluster management endpoints answer: the health summary, the
//! shard-assignment listing, the promotion candidates, and where an insert
//! must go. The HTTP plumbing around these lives outside the library.

use vstd::prelude::*;
use crate::cluster::ClusterState;
use crate::discovery::{is_active, node_key, node_views, NodeInfo, NodeInfoView, NodeRegistry};
use crate::keyed::{
    filter_map, find_u64, first_key, has_key, keyed_map, lemma_keyed_len, lemma_keyed_map_index, lemma_keyed_same_elements,
    unique_keys,
};
use crate::leader_election::ElectionStateView;
use crate::shard_manager::{ShardAssignment, ShardManager, NUM_SHARDS};
use crate::jump_hash::jump_hash_spec;
use crate::text::{
    decimal, lemma_text_less_irreflexive, lemma_text_less_total, lemma_text_less_transitive, owned, push_decimal, push_str,
    string_views, text_before, text_less,
};
use crate::types::VectorId;

verus! {

broadcast use vstd::seq_lib::group_to_multiset_ensures;

/// Health summary for the local node.
#[derive(Debug)]
pub struct ClusterHealth {
    pub node_id: String,
    pub status: String,
    pub active_nodes: usize,
    pub total_shards: usize,
    pub leaderships: usize,
    pub followerships: usize,
}

/// Promotion candidate — a follower that could be promoted to leader.
#[derive(Debug)]
pub struct PromotionCandidate {
    pub shard_id: u64,
    pub current_leader: String,
    pub candidate_node: String,
    pub eligible: bool,
    pub replication_lag: u64,
}

/// Insert response returned by the shard leader.
#[derive(Debug)]
pub struct InsertResponse {
    pub success: bool,
    pub id: u64,
    pub error: Option<String>,
}

/// Internal insert response.
#[derive(Debug)]
pub struct InternalInsertResponse {
    pub success: bool,
    pub error: Option<String>,
}

/// Internal health response.
#[derive(Debug)]
pub struct InternalHealthResponse {
    pub node_id: String,
    pub is_leader: bool,
    pub shards: Vec<u64>,
}

/// The shards whose election state satisfies `p`.
pub open spec fn shards_where(
    states: Map<u64, ElectionStateView>,
    p: spec_fn(ElectionStateView) -> bool,
) -> Set<u64> {
    filter_map(states, p).dom()
}

/// The health summary of the local node: its id, `healthy`, the number of
/// active nodes, of assigned shards, and of shards it leads and follows.
pub fn cluster_health(state: &ClusterState) -> (r: ClusterHealth)
    requires
        state.wf(),
        state.leader_election_spec().wf(),
    ensures
        r.node_id@ == state.identity_spec().node_id@,
        r.status@ == "healthy"@,
        r.active_nodes == filter_map(state.registry_spec()@, is_active()).dom().len(),
        r.total_shards == state.shards_spec().assignments().len(),
        r.leaderships == shards_where(state.leader_election_spec().states(), |v: ElectionStateView| v is Leader).len(),
        r.followerships == shards_where(state.leader_election_spec().states(), |v: ElectionStateView| v is Follower).len(),
{
    let identity = state.identity();
    let active = state.registry().active_nodes();
    proof {
        lemma_keyed_len(node_views(active@), node_key());
        assert(node_views(active@).len() == active@.len());
    }
    let total_shards = state.shards().len();
    let lead = state.leader_election().my_leaderships();
    let follow = state.leader_election().my_followerships();
    proof {
        let st = state.leader_election_spec().states();
        lead@.unique_seq_to_set();
        assert(lead@.to_set() =~= shards_where(st, |v: ElectionStateView| v is Leader));
        lemma_keyed_len(follow@, first_key());
        lemma_keyed_map_index(follow@, first_key());
        assert forall|k: u64| #[trigger] keyed_map(follow@, first_key()).contains_key(k) <==> shards_where(st, |v: ElectionStateView| v is Follower).contains(k) by {
            if has_key(follow@, first_key(), k) {
                let j = choose|j: int| 0 <= j < follow@.len() && first_key()(#[trigger] follow@[j]) == k;
                assert(st.contains_key(follow@[j].0));
            }
        }
        assert(keyed_map(follow@, first_key()).dom() =~= shards_where(st, |v: ElectionStateView| v is Follower));
    }
    ClusterHealth {
        node_id: identity.node_id.clone(),
        status: owned("healthy"),
        active_nodes: active.len(),
        total_shards,
        leaderships: lead.len(),
        followerships: follow.len(),
    }
}

/// The node listing of the cluster endpoint: every registered node, in
/// increasing order of node id.
#[verifier::spinoff_prover]
pub fn node_listing(registry: &NodeRegistry) -> (r: Vec<NodeInfo>)
    requires
        registry.wf(),
    ensures
        forall|i: int, j: int| 0 <= i < j < r.len() ==> text_less(r@[i].node_id@, r@[j].node_id@),
        keyed_map(node_views(r@), node_key()) == registry@,
{
    let all = registry.all_nodes();
    let ghost av = node_views(all@);
    let mut out: Vec<NodeInfo> = Vec::new();
    let n = all.len();
    let mut i: usize = 0;
    proof {
        assert(av.take(0) =~= Seq::<NodeInfoView>::empty());
        assert(node_views(out@) =~= Seq::<NodeInfoView>::empty());
    }
    while i < n
        invariant
            n == all.len(),
            i <= n,
            av == node_views(all@),
            unique_keys(av, node_key()),
            forall|a: int, b: int| 0 <= a < b < out.len() ==> text_less(#[trigger] out@[a].node_id@, #[trigger] out@[b].node_id@),
            forall|x: NodeInfoView| #[trigger] node_views(out@).contains(x) <==> av.take(i as int).contains(x),
        decreases n - i,
    {
        let x = all[i].duplicate();
        assert(x@ == av[i as int]);
        let mut pos: usize = 0;
        while pos < out.len() && text_before(out[pos].node_id.as_str(), x.node_id.as_str())
            invariant
                pos <= out.len(),
                forall|j: int| 0 <= j < pos ==> text_less(#[trigger] out@[j].node_id@, x.node_id@),
            decreases out.len() - pos,
        {
            pos = pos + 1;
        }
        let ghost before = out@;
        let ghost bv = node_views(out@);
        proof {
            assert forall|j: int| 0 <= j < before.len() implies #[trigger] before[j].node_id@ != x.node_id@ by {
                assert(bv[j] == before[j]@);
                assert(bv.contains(bv[j]));
                assert(av.take(i as int).contains(bv[j]));
                let t0 = av.take(i as int);
                let a = choose|a: int| 0 <= a < t0.len() && t0[a] == bv[j];
                assert(av[a] == bv[j]);
                assert(node_key()(av[a]) != node_key()(av[i as int]));
            }
            if pos < before.len() {
                lemma_text_less_total(before[pos as int].node_id@, x.node_id@);
                assert(text_less(x.node_id@, before[pos as int].node_id@));
            }
        }
        out.insert(pos, x);
        proof {
            let after = out@;
            assert(after =~= before.insert(pos as int, x));
            assert forall|a: int, b: int| 0 <= a < b < after.len() implies text_less(#[trigger] after[a].node_id@, #[trigger] after[b].node_id@) by {
                if b < pos {
                    assert(after[a] == before[a] && after[b] == before[b]);
                } else if b == pos {
                    assert(after[a] == before[a]);
                } else if a == pos {
                    assert(after[b] == before[b - 1]);
                    if b - 1 > pos {
                        lemma_text_less_transitive(x.node_id@, before[pos as int].node_id@, before[b - 1].node_id@);
                    }
                } else if a < pos {
                    assert(after[a] == before[a] && after[b] == before[b - 1]);
                    if b - 1 > pos {
                        lemma_text_less_transitive(x.node_id@, before[pos as int].node_id@, before[b - 1].node_id@);
                    }
                    lemma_text_less_transitive(before[a].node_id@, x.node_id@, before[b - 1].node_id@);
                } else {
                    assert(after[a] == before[a - 1] && after[b] == before[b - 1]);
                }
            }
            assert(node_views(after) =~= bv.insert(pos as int, x@));
            assert(av.take(i + 1) =~= av.take(i as int).push(x@));
            assert forall|y: NodeInfoView| #[trigger] node_views(after).contains(y) <==> av.take(i + 1).contains(y) by {
                if node_views(after).contains(y) {
                    let j = choose|j: int| 0 <= j < node_views(after).len() && node_views(after)[j] == y;
                    if j < pos {
                        assert(bv[j] == y);
                        assert(bv.contains(y));
                    } else if j > pos {
                        assert(bv[j - 1] == y);
                        assert(bv.contains(y));
                    }
                    if y != x@ {
                        assert(av.take(i as int).contains(y));
                        let t0 = av.take(i as int);
                        let a = choose|a: int| 0 <= a < t0.len() && t0[a] == y;
                        assert(av.take(i + 1)[a] == y);
                    } else {
                        assert(av.take(i + 1)[i as int] == y);
                    }
                }
                if av.take(i + 1).contains(y) {
                    let t1 = av.take(i + 1);
                    let a = choose|a: int| 0 <= a < t1.len() && t1[a] == y;
                    if a < i {
                        assert(av.take(i as int)[a] == y);
                        assert(av.take(i as int).contains(y));
                        assert(bv.contains(y));
                        let j = choose|j: int| 0 <= j < bv.len() && bv[j] == y;
                        if j < pos {
                            assert(node_views(after)[j] == y);
                        } else {
                            assert(node_views(after)[j + 1] == y);
                        }
                    } else {
                        assert(node_views(after)[pos as int] == y);
                    }
                }
            }
        }
        i = i + 1;
    }
    proof {
        let ov = node_views(out@);
        assert(av.take(n as int) =~= av);
        assert(unique_keys(ov, node_key())) by {
            assert forall|a: int, b: int| 0 <= a < b < ov.len() implies node_key()(#[trigger] ov[a]) != node_key()(#[trigger] ov[b]) by {
                assert(text_less(out@[a].node_id@, out@[b].node_id@));
                if out@[a].node_id@ == out@[b].node_id@ {
                    lemma_text_less_irreflexive(out@[a].node_id@);
                }
            }
        }
        lemma_keyed_same_elements(ov, av, node_key());
    }
    out
}

/// The values of a list of (shard, node) pairs.
pub open spec fn pair_views(s: Seq<(u64, String)>) -> Seq<(u64, Seq<char>)> {
    s.map_values(|p: (u64, String)| (p.0, p.1@))
}

/// The keys of `s` never decrease.
pub open spec fn sorted_by_key(s: Seq<(u64, Seq<char>)>) -> bool {
    forall|i: int, j: int| 0 <= i < j < s.len() ==> s[i].0 <= s[j].0
}

/// The (shard, node) pairs of `v` ordered by shard.
pub fn sort_pairs(v: &Vec<(u64, String)>) -> (r: Vec<(u64, String)>)
    ensures
        sorted_by_key(pair_views(r@)),
        pair_views(r@).to_multiset() == pair_views(v@).to_multiset(),
{
    let ghost vv = pair_views(v@);
    let mut out: Vec<(u64, String)> = Vec::new();
    let n = v.len();
    let mut i: usize = 0;
    proof {
        assert(vv.take(0) =~= Seq::<(u64, Seq<char>)>::empty());
        assert(pair_views(out@) =~= Seq::<(u64, Seq<char>)>::empty());
    }
    while i < n
        invariant
            n == v.len(),
            i <= n,
            vv == pair_views(v@),
            sorted_by_key(pair_views(out@)),
            pair_views(out@).to_multiset() == vv.take(i as int).to_multiset(),
            out.len() <= i,
        decreases n - i,
    {
        let x = (v[i].0, v[i].1.clone());
        let mut pos: usize = 0;
        while pos < out.len() && out[pos].0 <= x.0
            invariant
                pos <= out.len(),
                forall|j: int| 0 <= j < pos ==> out@[j].0 <= x.0,
            decreases out.len() - pos,
        {
            pos = pos + 1;
        }
        let ghost before = pair_views(out@);
        let ghost xv = (x.0, x.1@);
        assert(xv == vv[i as int]);
        out.insert(pos, x);
        proof {
            let after = pair_views(out@);
            assert(after =~= before.insert(pos as int, xv));
            assert forall|a: int, b: int| 0 <= a < b < after.len() implies after[a].0 <= after[b].0 by {
                if b < pos {
                    assert(after[a] == before[a] && after[b] == before[b]);
                } else if b == pos {
                    assert(after[a] == before[a]);
                    assert(out@[a].0 <= x.0);
                } else if a == pos {
                    assert(after[b] == before[b - 1]);
                    if pos < before.len() {
                        assert(before[pos as int].0 > x.0);
                        assert(before[pos as int].0 <= before[b - 1].0);
                    }
                } else if a < pos {
                    assert(after[a] == before[a] && after[b] == before[b - 1]);
                } else {
                    assert(after[a] == before[a - 1] && after[b] == before[b - 1]);
                }
            }
            vstd::seq_lib::to_multiset_insert(before, pos as int, xv);
            assert(vv.take(i + 1) =~= vv.take(i as int).push(xv));
            vstd::seq_lib::to_multiset_build(vv.take(i as int), xv);
        }
        i = i + 1;
    }
    proof {
        assert(vv.take(n as int) =~= vv);
    }
    out
}

/// A listing with distinct keys in non-decreasing key order is strictly increasing.
proof fn lemma_sorted_distinct_strict(s: Seq<(u64, Seq<char>)>, t: Seq<(u64, Seq<char>)>)
    requires
        sorted_by_key(s),
        s.to_multiset() == t.to_multiset(),
        unique_keys(t, first_key()),
    ensures
        forall|i: int, j: int| 0 <= i < j < s.len() ==> s[i].0 < s[j].0,
        forall|x: (u64, Seq<char>)| #[trigger] s.contains(x) <==> t.contains(x),
{
    s.to_multiset_ensures();
    t.to_multiset_ensures();
    assert forall|x: (u64, Seq<char>)| #[trigger] s.contains(x) <==> t.contains(x) by {
        assert(s.to_multiset().count(x) == t.to_multiset().count(x));
        assert(s.contains(x) <==> s.to_multiset().count(x) > 0);
        assert(t.contains(x) <==> t.to_multiset().count(x) > 0);
    }
    assert forall|i: int, j: int| 0 <= i < j < s.len() implies s[i].0 < s[j].0 by {
        if s[i].0 == s[j].0 {
            assert(s.contains(s[i]) && s.contains(s[j]));
            let a = choose|a: int| 0 <= a < t.len() && t[a] == s[i];
            let b = choose|b: int| 0 <= b < t.len() && t[b] == s[j];
            if a == b {
                assert(s[i] == s[j]);
                assert(s.to_multiset().count(s[i]) >= 2) by {
                    lemma_count_two(s, i, j);
                }
                assert(t.to_multiset().count(s[i]) <= 1) by {
                    lemma_unique_count(t, s[i]);
                }
            } else if a < b {
                assert(first_key()(t[a]) != first_key()(t[b]));
            } else {
                assert(first_key()(t[b]) != first_key()(t[a]));
            }
        }
    }
}

proof fn lemma_count_two<A>(s: Seq<A>, i: int, j: int)
    requires
        0 <= i < j < s.len(),
        s[i] == s[j],
    ensures
        s.to_multiset().count(s[i]) >= 2,
    decreases s.len(),
{
    let t = s.drop_last();
    vstd::seq_lib::to_multiset_build(t, s.last());
    assert(t.push(s.last()) =~= s);
    if j == s.len() - 1 {
        assert(t[i] == s[i]);
        assert(t.contains(s[i]));
    } else {
        lemma_count_two(t, i, j);
        assert(t[i] == s[i]);
    }
}

proof fn lemma_unique_count(t: Seq<(u64, Seq<char>)>, x: (u64, Seq<char>))
    requires
        unique_keys(t, first_key()),
    ensures
        t.to_multiset().count(x) <= 1,
    decreases t.len(),
{
    if t.len() > 0 {
        let u = t.drop_last();
        assert(unique_keys(u, first_key())) by {
            assert forall|a: int, b: int| 0 <= a < b < u.len() implies first_key()(#[trigger] u[a]) != first_key()(#[trigger] u[b]) by {
                assert(u[a] == t[a] && u[b] == t[b]);
            }
        }
        lemma_unique_count(u, x);
        vstd::seq_lib::to_multiset_build(u, t.last());
        assert(u.push(t.last()) =~= t);
        if t.last() == x && u.to_multiset().count(x) == 1 {
            assert(u.contains(x));
            let a = choose|a: int| 0 <= a < u.len() && u[a] == x;
            assert(first_key()(t[a]) != first_key()(t[t.len() - 1]));
        }
    }
}

/// The assignment listing of the shard-assignment endpoint: one entry per
/// assigned shard, in increasing shard order, with its leader and an empty
/// replica list.
pub fn shard_assignment_listing(shards: &ShardManager) -> (r: Vec<ShardAssignment>)
    requires
        shards.wf(),
    ensures
        forall|i: int, j: int| 0 <= i < j < r.len() ==> r@[i].shard_id < r@[j].shard_id,
        forall|j: int| 0 <= j < r.len() ==> #[trigger] shards.assignments().contains_key(r@[j].shard_id)
            && r@[j].leader@ == shards.assignments()[r@[j].shard_id].leader && r@[j].replicas@.len() == 0,
        forall|k: u64| #[trigger] shards.assignments().contains_key(k) ==> exists|j: int| 0 <= j < r.len() && #[trigger] r@[j].shard_id == k,
{
    let leaders = shards.assigned_leaders();
    let sorted = sort_pairs(&leaders);
    proof {
        assert(unique_keys(pair_views(leaders@), first_key())) by {
            assert forall|a: int, b: int| 0 <= a < b < pair_views(leaders@).len() implies first_key()(#[trigger] pair_views(leaders@)[a]) != first_key()(#[trigger] pair_views(leaders@)[b]) by {
                assert(first_key()(leaders@[a]) != first_key()(leaders@[b]));
            }
        }
        lemma_sorted_distinct_strict(pair_views(sorted@), pair_views(leaders@));
    }
    let mut out: Vec<ShardAssignment> = Vec::new();
    let n = sorted.len();
    let mut i: usize = 0;
    while i < n
        invariant
            n == sorted.len(),
            i <= n,
            out.len() == i,
            forall|j: int| 0 <= j < i ==> #[trigger] out@[j].shard_id == sorted@[j].0 && out@[j].leader@ == sorted@[j].1@ && out@[j].replicas@.len() == 0,
        decreases n - i,
    {
        out.push(ShardAssignment { shard_id: sorted[i].0, leader: sorted[i].1.clone(), replicas: Vec::new() });
        i = i + 1;
    }
    proof {
        let sv = pair_views(sorted@);
        let lv = pair_views(leaders@);
        assert forall|j: int| 0 <= j < out.len() implies #[trigger] shards.assignments().contains_key(out@[j].shard_id)
            && out@[j].leader@ == shards.assignments()[out@[j].shard_id].leader && out@[j].replicas@.len() == 0 by {
            assert(sv[j] == (sorted@[j].0, sorted@[j].1@));
            assert(sv.contains(sv[j]));
            let a = choose|a: int| 0 <= a < lv.len() && lv[a] == sv[j];
            assert(lv[a] == (leaders@[a].0, leaders@[a].1@));
            assert(shards.assignments().contains_key(leaders@[a].0));
        }
        assert forall|i2: int, j: int| 0 <= i2 < j < out.len() implies out@[i2].shard_id < out@[j].shard_id by {
            assert(sv[i2].0 == out@[i2].shard_id && sv[j].0 == out@[j].shard_id);
        }
        assert forall|k: u64| #[trigger] shards.assignments().contains_key(k) implies exists|j: int| 0 <= j < out.len() && #[trigger] out@[j].shard_id == k by {
            let a = choose|a: int| 0 <= a < leaders@.len() && first_key()(#[trigger] leaders@[a]) == k;
            assert(lv[a] == (leaders@[a].0, leaders@[a].1@));
            assert(lv.contains(lv[a]));
            assert(sv.contains(lv[a]));
            let j = choose|j: int| 0 <= j < sv.len() && sv[j] == lv[a];
            assert(sv[j] == (sorted@[j].0, sorted@[j].1@));
            assert(out@[j].shard_id == sorted@[j].0);
        }
    }
    out
}

/// The promotion-candidates listing: one entry per shard that the cluster's
/// leader election follows, in increasing shard order, with its current
/// leader, this node as candidate, whether the failover manager finds this
/// node eligible for it, and a replication lag of 0.
#[verifier::spinoff_prover]
pub fn promotion_candidate_listing(state: &ClusterState) -> (r: Vec<PromotionCandidate>)
    requires
        state.wf(),
        state.leader_election_spec().wf(),
        state.failover_spec().wf(),
    ensures
        forall|i: int, j: int| 0 <= i < j < r.len() ==> r@[i].shard_id < r@[j].shard_id,
        forall|j: int| 0 <= j < r.len() ==> {
            let k = #[trigger] r@[j].shard_id;
            let fo = state.failover_spec();
            &&& state.leader_election_spec().states().contains_key(k)
            &&& state.leader_election_spec().states()[k] == ElectionStateView::Follower(r@[j].current_leader@)
            &&& r@[j].candidate_node@ == state.identity_spec().node_id@
            &&& r@[j].eligible == (fo.election_spec().states().contains_key(k)
                && fo.election_spec().states()[k] is Follower && fo.eligible_for(k))
            &&& r@[j].replication_lag == 0
        },
        forall|k: u64| #[trigger] state.leader_election_spec().states().contains_key(k)
            && state.leader_election_spec().states()[k] is Follower
            ==> exists|j: int| 0 <= j < r.len() && #[trigger] r@[j].shard_id == k,
{
    let follow = state.leader_election().my_followerships();
    let candidates = state.failover().promotion_candidates();
    let sorted = sort_pairs(&follow);
    proof {
        assert(pair_views(follow@) =~= follow@.map_values(|p: (u64, String)| (p.0, p.1@)));
        assert(unique_keys(pair_views(follow@), first_key())) by {
            assert forall|a: int, b: int| 0 <= a < b < pair_views(follow@).len() implies first_key()(#[trigger] pair_views(follow@)[a]) != first_key()(#[trigger] pair_views(follow@)[b]) by {
                assert(first_key()(follow@[a]) != first_key()(follow@[b]));
            }
        }
        lemma_sorted_distinct_strict(pair_views(sorted@), pair_views(follow@));
    }
    let me = &state.identity().node_id;
    let mut out: Vec<PromotionCandidate> = Vec::new();
    let n = sorted.len();
    let mut i: usize = 0;
    while i < n
        invariant
            n == sorted.len(),
            i <= n,
            out.len() == i,
            unique_keys(candidates@, first_key()),
            *me == state.identity_spec().node_id,
            forall|j: int| 0 <= j < candidates.len() ==> #[trigger] state.failover_spec().election_spec().states().contains_key(candidates@[j].0)
                && state.failover_spec().election_spec().states()[candidates@[j].0] is Follower
                && candidates@[j].1 == state.failover_spec().eligible_for(candidates@[j].0),
            forall|k: u64| #[trigger] state.failover_spec().election_spec().states().contains_key(k)
                && state.failover_spec().election_spec().states()[k] is Follower ==> has_key(candidates@, first_key(), k),
            forall|j: int| 0 <= j < i ==> {
                let k = #[trigger] out@[j].shard_id;
                let fo = state.failover_spec();
                &&& k == sorted@[j].0
                &&& out@[j].current_leader@ == sorted@[j].1@
                &&& out@[j].candidate_node@ == state.identity_spec().node_id@
                &&& out@[j].eligible == (fo.election_spec().states().contains_key(k)
                    && fo.election_spec().states()[k] is Follower && fo.eligible_for(k))
                &&& out@[j].replication_lag == 0
            },
        decreases n - i,
    {
        let k = sorted[i].0;
        let eligible = match find_u64(&candidates, k) {
            Some(c) => candidates[c].1,
            None => false,
        };
        proof {
            let fo = state.failover_spec();
            if fo.election_spec().states().contains_key(k) && fo.election_spec().states()[k] is Follower {
                assert(has_key(candidates@, first_key(), k));
                let c = choose|c: int| 0 <= c < candidates@.len() && first_key()(#[trigger] candidates@[c]) == k;
                assert(candidates@[c].0 == k);
            }
        }
        let c = PromotionCandidate {
            shard_id: k,
            current_leader: sorted[i].1.clone(),
            candidate_node: me.clone(),
            eligible,
            replication_lag: 0,
        };
        let ghost before = out@;
        out.push(c);
        proof {
            assert(out@ == before.push(c));
            assert(out@[i as int] == c);
            assert forall|j: int| 0 <= j < i implies #[trigger] out@[j] == before[j] by {}
        }
        i = i + 1;
    }
    proof {
        let sv = pair_views(sorted@);
        let fv = pair_views(follow@);
        assert forall|j: int| 0 <= j < out.len() implies #[trigger] state.leader_election_spec().states().contains_key(out@[j].shard_id)
            && state.leader_election_spec().states()[out@[j].shard_id] == ElectionStateView::Follower(out@[j].current_leader@) by {
            assert(sv[j] == (sorted@[j].0, sorted@[j].1@));
            assert(sv.contains(sv[j]));
            let a = choose|a: int| 0 <= a < fv.len() && fv[a] == sv[j];
            assert(fv[a] == (follow@[a].0, follow@[a].1@));
        }
        assert forall|i2: int, j: int| 0 <= i2 < j < out.len() implies out@[i2].shard_id < out@[j].shard_id by {
            assert(sv[i2].0 == out@[i2].shard_id && sv[j].0 == out@[j].shard_id);
        }
        assert forall|k: u64| #[trigger] state.leader_election_spec().states().contains_key(k)
            && state.leader_election_spec().states()[k] is Follower implies exists|j: int| 0 <= j < out.len() && #[trigger] out@[j].shard_id == k by {
            let a = choose|a: int| 0 <= a < follow@.len() && first_key()(#[trigger] follow@[a]) == k;
            assert(fv[a] == (follow@[a].0, follow@[a].1@));
            assert(fv.contains(fv[a]));
            assert(sv.contains(fv[a]));
            let j = choose|j: int| 0 <= j < sv.len() && sv[j] == fv[a];
            assert(sv[j] == (sorted@[j].0, sorted@[j].1@));
            assert(out@[j].shard_id == sorted@[j].0);
        }
    }
    out
}

/// The liveness answer of a node: its id, whether it leads any shard, and
/// the shards it leads, each once.
pub fn internal_health(state: &ClusterState) -> (r: InternalHealthResponse)
    requires
        state.leader_election_spec().wf(),
    ensures
        r.node_id@ == state.identity_spec().node_id@,
        r.shards@.no_duplicates(),
        forall|k: u64| #[trigger] r.shards@.contains(k) <==> shards_where(
            state.leader_election_spec().states(),
            |v: ElectionStateView| v is Leader,
        ).contains(k),
        r.is_leader == (r.shards@.len() > 0),
{
    let shards = state.leader_election().my_leaderships();
    let is_leader = shards.len() > 0;
    InternalHealthResponse { node_id: state.identity().node_id.clone(), is_leader, shards }
}

/// Where an insert of a vector must go.
#[derive(Debug)]
pub enum InsertRoute {
    /// The vector's shard has no leader.
    NoLeader { shard_id: u64 },
    /// This node leads the vector's shard.
    Local { shard_id: u64 },
    /// Another node, registered at `addr`, leads the vector's shard.
    Remote { shard_id: u64, leader: String, addr: String },
    /// The shard's leader is not in the registry.
    LeaderUnknown { shard_id: u64, leader: String },
}

/// The route of an insert of vector `id`: to the leader of the shard that
/// jump hashing assigns it among the cluster's shards.
pub fn route_insert(state: &ClusterState, id: u64) -> (r: InsertRoute)
    requires
        state.wf(),
    ensures
        ({
            let shard = jump_hash_spec(id, NUM_SHARDS as nat);
            let asg = state.shards_spec().assignments();
            let reg = state.registry_spec()@;
            if !asg.contains_key(shard as u64) {
                r == (InsertRoute::NoLeader { shard_id: shard as u64 })
            } else {
                let leader = asg[shard as u64].leader;
                if leader == state.identity_spec().node_id@ {
                    r == (InsertRoute::Local { shard_id: shard as u64 })
                } else if reg.contains_key(leader) {
                    r matches InsertRoute::Remote { shard_id, leader: l, addr } && shard_id == shard && l@ == leader && addr@ == reg[leader].addr
                } else {
                    r matches InsertRoute::LeaderUnknown { shard_id, leader: l } && shard_id == shard && l@ == leader
                }
            }
        }),
{
    let shard_id = state.shards().shard_for(&VectorId(id));
    match state.shards().get_leader(shard_id) {
        None => InsertRoute::NoLeader { shard_id },
        Some(l) => {
            let leader = owned(l);
            if leader == state.identity().node_id {
                InsertRoute::Local { shard_id }
            } else {
                match state.registry().get_node(leader.as_str()) {
                    Some(n) => InsertRoute::Remote { shard_id, leader, addr: n.addr },
                    None => InsertRoute::LeaderUnknown { shard_id, leader },
                }
            }
        },
    }
}

/// The message answered when an insert cannot be routed, for the routes that fail.
pub open spec fn route_failure_message(r: InsertRoute) -> Option<Seq<char>> {
    match r {
        InsertRoute::NoLeader { shard_id } => Some("shard "@ + decimal(shard_id as nat) + " has no leader assigned"@),
        InsertRoute::LeaderUnknown { shard_id, leader } => Some("leader "@ + leader@ + " for shard "@ + decimal(shard_id as nat) + " not found in registry"@),
        _ => None,
    }
}

impl InsertRoute {
    /// The message answered when this route fails (`None` for the routes that
    /// lead to a node).
    pub fn failure_message(&self) -> (r: Option<String>)
        ensures
            match route_failure_message(*self) {
                Some(m) => r matches Some(s) && s@ == m,
                None => r is None,
            },
    {
        match self {
            InsertRoute::NoLeader { shard_id } => {
                let mut s = owned("shard ");
                push_decimal(&mut s, *shard_id as u128);
                push_str(&mut s, " has no leader assigned");
                Some(s)
            },
            InsertRoute::LeaderUnknown { shard_id, leader } => {
                let mut s = owned("leader ");
                push_str(&mut s, leader.as_str());
                push_str(&mut s, " for shard ");
                push_decimal(&mut s, *shard_id as u128);
                push_str(&mut s, " not found in registry");
                Some(s)
            },
            _ => None,
        }
    }
}

} // verus!
