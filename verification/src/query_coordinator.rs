//! The decisions of a distributed query across shards: which shards it fans
//! out to, how its latency budget is shared, where each shard is searched,
//! and what the gathered answers amount to. The concurrent fan-out and the
//! scoring of results stay outside the library.

use vstd::prelude::*;
use crate::cluster::ClusterState;
use crate::error::Error;
use crate::keyed::{first_key, has_key};
use crate::shard_manager::ShardManager;
use crate::text::owned;

verus! {

/// The per-shard timeout of a distributed query over `total_shards` shards:
/// with a latency budget, the budget divided evenly with a floor of 50 ms;
/// without one, the default query timeout.
pub fn per_shard_timeout_ms(within_ms: Option<u64>, total_shards: usize, default_ms: u64) -> (r: u64)
    requires
        total_shards > 0,
    ensures
        r == match within_ms {
            Some(w) => if w / (total_shards as u64) > 50 { w / (total_shards as u64) } else { 50 },
            None => default_ms,
        },
{
    match within_ms {
        Some(w) => {
            let per = w / (total_shards as u64);
            if per > 50 {
                per
            } else {
                50
            }
        },
        None => default_ms,
    }
}

/// The shards a distributed search fans out to: every assigned shard, each
/// once; `AllShardsFailed` when no shard is assigned.
pub fn search_shards(shards: &ShardManager) -> (r: Result<Vec<u64>, Error>)
    requires
        shards.wf(),
    ensures
        shards.assignments().len() == 0 <==> r matches Err(Error::AllShardsFailed),
        r is Err ==> r matches Err(Error::AllShardsFailed),
        r matches Ok(v) ==> v@.no_duplicates() && forall|k: u64| #[trigger] v@.contains(k) <==> shards.assignments().contains_key(k),
{
    if shards.len() == 0 {
        return Err(Error::AllShardsFailed);
    }
    let leaders = shards.assigned_leaders();
    let mut ids: Vec<u64> = Vec::new();
    let n = leaders.len();
    let mut i: usize = 0;
    while i < n
        invariant
            n == leaders.len(),
            i <= n,
            ids.len() == i,
            forall|j: int| 0 <= j < i ==> #[trigger] ids@[j] == leaders@[j].0,
        decreases n - i,
    {
        ids.push(leaders[i].0);
        i = i + 1;
    }
    proof {
        assert forall|a: int, b: int| 0 <= a < b < ids@.len() implies ids@[a] != ids@[b] by {
            assert(first_key()(leaders@[a]) != first_key()(leaders@[b]));
        }
        assert forall|k: u64| #[trigger] ids@.contains(k) <==> shards.assignments().contains_key(k) by {
            if shards.assignments().contains_key(k) {
                assert(has_key(leaders@, first_key(), k));
                let j = choose|j: int| 0 <= j < leaders@.len() && first_key()(#[trigger] leaders@[j]) == k;
                assert(ids@[j] == k);
            }
        }
    }
    Ok(ids)
}

/// Where one shard of a distributed search is searched.
#[derive(Debug)]
pub enum ShardTarget {
    /// This node leads the shard: search the local storage.
    Local,
    /// Another node, registered at `addr`, leads the shard.
    Remote { leader: String, addr: String },
}

/// Where shard `shard_id` is searched: locally when this node leads it, or
/// at its leader's registered address. An unassigned shard gives
/// `ShardNotAssigned`, and a leader missing from the registry `NotFound`.
pub fn shard_search_target(state: &ClusterState, shard_id: u64) -> (r: Result<ShardTarget, Error>)
    requires
        state.wf(),
    ensures
        ({
            let asg = state.shards_spec().assignments();
            let reg = state.registry_spec()@;
            if !asg.contains_key(shard_id) {
                r matches Err(Error::ShardNotAssigned(s)) && s == shard_id
            } else {
                let leader = asg[shard_id].leader;
                if leader == state.identity_spec().node_id@ {
                    r matches Ok(ShardTarget::Local)
                } else if reg.contains_key(leader) {
                    r matches Ok(ShardTarget::Remote { leader: l, addr }) && l@ == leader && addr@ == reg[leader].addr
                } else {
                    r matches Err(Error::NotFound(m)) && m@ == "leader node "@ + leader
                }
            }
        }),
{
    match state.shards().get_leader(shard_id) {
        None => Err(Error::ShardNotAssigned(shard_id)),
        Some(l) => {
            let leader = owned(l);
            if leader == state.identity().node_id {
                Ok(ShardTarget::Local)
            } else {
                match state.registry().get_node(leader.as_str()) {
                    Some(n) => Ok(ShardTarget::Remote { leader, addr: n.addr }),
                    None => {
                        let mut m = owned("leader node ");
                        crate::text::push_str(&mut m, leader.as_str());
                        Err(Error::NotFound(m))
                    },
                }
            }
        },
    }
}

/// What the answers gathered from `total_shards` shards amount to, when
/// `responded` of them answered: `AllShardsFailed` when none did, and
/// otherwise whether the result is partial.
pub fn gather_outcome(total_shards: usize, responded: usize) -> (r: Result<bool, Error>)
    requires
        responded <= total_shards,
    ensures
        responded == 0 ==> r matches Err(Error::AllShardsFailed),
        responded > 0 ==> r == Ok::<bool, Error>(responded < total_shards),
{
    if responded == 0 {
        Err(Error::AllShardsFailed)
    } else {
        Ok(responded < total_shards)
    }
}

} // verus!
