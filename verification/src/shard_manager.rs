//! Shard-to-node assignments: which node leads each shard and which nodes
//! replicate it.

use vstd::prelude::*;
use crate::error::Error;
use crate::jump_hash::{jump_hash, jump_hash_spec};
use crate::keyed::{
    filter_map, find_u64, first_key, has_key, keyed_map, lemma_filter_step, lemma_keyed_len,
    lemma_keyed_map_index, lemma_keyed_push, lemma_keyed_update, unique_keys,
};
use crate::text::{
    contains_text, copy_strings, differs_from, owned, string_views, without_text,
};
use crate::types::VectorId;

verus! {

/// Default number of shards for the cluster.
pub const NUM_SHARDS: u64 = 64;

/// Shard assignment: which node is responsible for which shard role.
#[derive(Debug, Clone)]
pub struct ShardAssignment {
    pub shard_id: u64,
    pub leader: String,
    pub replicas: Vec<String>,
}

/// The value of a [`ShardAssignment`].
pub struct ShardAssignmentView {
    pub shard_id: u64,
    pub leader: Seq<char>,
    pub replicas: Seq<Seq<char>>,
}

impl View for ShardAssignment {
    type V = ShardAssignmentView;

    open spec fn view(&self) -> ShardAssignmentView {
        ShardAssignmentView {
            shard_id: self.shard_id,
            leader: self.leader@,
            replicas: string_views(self.replicas@),
        }
    }
}

impl ShardAssignment {
    /// A copy of this assignment.
    pub fn duplicate(&self) -> (r: Self)
        ensures
            r@ == self@,
    {
        ShardAssignment {
            shard_id: self.shard_id,
            leader: self.leader.clone(),
            replicas: copy_strings(&self.replicas),
        }
    }
}

/// The key of an assignment record: its shard.
pub open spec fn shard_key() -> spec_fn(ShardAssignmentView) -> u64 {
    |a: ShardAssignmentView| a.shard_id
}

/// The values of a sequence of assignments.
pub open spec fn assignment_views(s: Seq<ShardAssignment>) -> Seq<ShardAssignmentView> {
    s.map_values(|a: ShardAssignment| a@)
}

/// The values of a sequence of assignment references.
pub open spec fn assignment_ref_views(s: Seq<&ShardAssignment>) -> Seq<ShardAssignmentView> {
    s.map_values(|a: &ShardAssignment| a@)
}

/// The node leads or replicates the shard.
pub open spec fn involves(node: Seq<char>) -> spec_fn(ShardAssignmentView) -> bool {
    |a: ShardAssignmentView| a.leader == node || a.replicas.contains(node)
}

/// The assignments left after removing `node` everywhere: shards it led are
/// dropped, and it is taken out of the replica lists of the others.
pub open spec fn without_node(
    m: Map<u64, ShardAssignmentView>,
    node: Seq<char>,
) -> Map<u64, ShardAssignmentView> {
    Map::new(
        |k: u64| m.contains_key(k) && m[k].leader != node,
        |k: u64| ShardAssignmentView { replicas: m[k].replicas.filter(differs_from(node)), ..m[k] },
    )
}

/// The assignments after adding replica `r` to shard `k`: unchanged when the
/// shard is unassigned or already lists `r`, else `r` is appended.
pub open spec fn with_replica(
    m: Map<u64, ShardAssignmentView>,
    k: u64,
    r: Seq<char>,
) -> Map<u64, ShardAssignmentView> {
    if !m.contains_key(k) || m[k].replicas.contains(r) {
        m
    } else {
        m.insert(k, ShardAssignmentView { replicas: m[k].replicas.push(r), ..m[k] })
    }
}

/// Manages shard-to-node assignments. Each shard has at most one assignment.
#[derive(Debug)]
pub struct ShardManager {
    assignments: Vec<ShardAssignment>,
    node_id: String,
}

impl ShardManager {
    /// No shard is assigned twice.
    pub closed spec fn wf(&self) -> bool {
        unique_keys(assignment_views(self.assignments@), shard_key())
    }

    /// The assignment of each assigned shard.
    pub closed spec fn assignments(&self) -> Map<u64, ShardAssignmentView> {
        keyed_map(assignment_views(self.assignments@), shard_key())
    }

    /// The local node's id.
    pub closed spec fn local_node(&self) -> Seq<char> {
        self.node_id@
    }

    /// Create a new `ShardManager` for the given local node ID.
    pub fn new(node_id: &str) -> (r: Self)
        ensures
            r.wf(),
            r.assignments() == Map::<u64, ShardAssignmentView>::empty(),
            r.local_node() == node_id@,
    {
        let r = ShardManager { assignments: Vec::new(), node_id: owned(node_id) };
        proof {
            assert(assignment_views(r.assignments@) =~= Seq::<ShardAssignmentView>::empty());
        }
        r
    }

    /// Compute the shard for a given `VectorId` using JumpHash.
    pub fn shard_for(&self, id: &VectorId) -> (r: u64)
        ensures
            r == jump_hash_spec(id.0, NUM_SHARDS as nat),
            r < NUM_SHARDS,
    {
        jump_hash(id.0, NUM_SHARDS)
    }

    /// The position of the assignment of a shard, if any.
    fn find(&self, shard_id: u64) -> (r: Option<usize>)
        requires
            self.wf(),
        ensures
            r is Some <==> self.assignments().contains_key(shard_id),
            r matches Some(i) ==> i < self.assignments.len() && self.assignments@[i as int].shard_id
                == shard_id && self.assignments()[shard_id] == self.assignments@[i as int]@,
    {
        proof {
            lemma_keyed_map_index(assignment_views(self.assignments@), shard_key());
        }
        let n = self.assignments.len();
        let mut i: usize = 0;
        while i < n
            invariant
                n == self.assignments.len(),
                i <= n,
                self.wf(),
                forall|j: int| 0 <= j < i ==> self.assignments@[j].shard_id != shard_id,
            decreases n - i,
        {
            if self.assignments[i].shard_id == shard_id {
                proof {
                    lemma_keyed_map_index(assignment_views(self.assignments@), shard_key());
                    assert(assignment_views(self.assignments@)[i as int] == self.assignments@[i as int]@);
                    assert(has_key(assignment_views(self.assignments@), shard_key(), shard_id));
                }
                return Some(i);
            }
            i = i + 1;
        }
        proof {
            let s = assignment_views(self.assignments@);
            if has_key(s, shard_key(), shard_id) {
                let j = choose|j: int| 0 <= j < s.len() && shard_key()(#[trigger] s[j]) == shard_id;
                assert(s[j] == self.assignments@[j]@);
            }
        }
        None
    }

    /// Get the leader node for a shard, if assigned.
    pub fn get_leader(&self, shard_id: u64) -> (r: Option<&str>)
        requires
            self.wf(),
        ensures
            r is Some <==> self.assignments().contains_key(shard_id),
            r matches Some(l) ==> l@ == self.assignments()[shard_id].leader,
    {
        match self.find(shard_id) {
            Some(i) => Some(self.assignments[i].leader.as_str()),
            None => None,
        }
    }

    /// Get the assignment of a shard, if assigned.
    pub fn assignment(&self, shard_id: u64) -> (r: Option<&ShardAssignment>)
        requires
            self.wf(),
        ensures
            r is Some <==> self.assignments().contains_key(shard_id),
            r matches Some(a) ==> a@ == self.assignments()[shard_id],
    {
        match self.find(shard_id) {
            Some(i) => Some(&self.assignments[i]),
            None => None,
        }
    }

    /// Put an assignment, replacing any assignment of the same shard.
    fn put(&mut self, a: ShardAssignment)
        requires
            old(self).wf(),
        ensures
            final(self).wf(),
            final(self).assignments() == old(self).assignments().insert(a@.shard_id, a@),
            final(self).local_node() == old(self).local_node(),
    {
        let ghost s = assignment_views(self.assignments@);
        let ghost v = a@;
        match self.find(a.shard_id) {
            Some(i) => {
                self.assignments.set(i, a);
                proof {
                    assert(assignment_views(self.assignments@) =~= s.update(i as int, v));
                    lemma_keyed_update(s, shard_key(), i as int, v);
                }
            },
            None => {
                proof {
                    lemma_keyed_map_index(s, shard_key());
                }
                self.assignments.push(a);
                proof {
                    assert(assignment_views(self.assignments@) =~= s.push(v));
                    lemma_keyed_push(s, shard_key(), v);
                }
            },
        }
    }

    /// Assign a shard to a leader node.
    ///
    /// Creates or replaces the assignment for the given shard. Existing
    /// replicas are preserved if the assignment already exists, otherwise
    /// the replicas list starts empty.
    pub fn assign_shard(&mut self, shard_id: u64, leader: &str) -> (r: Result<(), Error>)
        requires
            old(self).wf(),
        ensures
            r is Ok,
            final(self).wf(),
            final(self).local_node() == old(self).local_node(),
            final(self).assignments() == old(self).assignments().insert(
                shard_id,
                ShardAssignmentView {
                    shard_id,
                    leader: leader@,
                    replicas: if old(self).assignments().contains_key(shard_id) {
                        old(self).assignments()[shard_id].replicas
                    } else {
                        Seq::empty()
                    },
                },
            ),
    {
        let replicas = match self.find(shard_id) {
            Some(i) => copy_strings(&self.assignments[i].replicas),
            None => {
                let v = Vec::new();
                proof {
                    assert(string_views(v@) =~= Seq::<Seq<char>>::empty());
                }
                v
            },
        };
        self.put(ShardAssignment { shard_id, leader: owned(leader), replicas });
        Ok(())
    }

    /// Add a replica node for a shard; adding a node that already replicates
    /// the shard changes nothing.
    ///
    /// Returns `ShardNotAssigned` if the shard has no leader assignment.
    pub fn add_replica(&mut self, shard_id: u64, replica: &str) -> (r: Result<(), Error>)
        requires
            old(self).wf(),
        ensures
            final(self).wf(),
            final(self).local_node() == old(self).local_node(),
            !old(self).assignments().contains_key(shard_id) ==> (r matches Err(
                Error::ShardNotAssigned(s),
            ) && s == shard_id && final(self).assignments() == old(self).assignments()),
            old(self).assignments().contains_key(shard_id) ==> r is Ok && final(self).assignments()
                == with_replica(old(self).assignments(), shard_id, replica@),
    {
        match self.find(shard_id) {
            Some(i) => {
                let name = owned(replica);
                if !contains_text(&self.assignments[i].replicas, &name) {
                    let mut a = self.assignments[i].duplicate();
                    let ghost before = string_views(a.replicas@);
                    a.replicas.push(name);
                    proof {
                        assert(string_views(a.replicas@) =~= before.push(replica@));
                    }
                    self.put(a);
                }
                Ok(())
            },
            None => Err(Error::ShardNotAssigned(shard_id)),
        }
    }

    /// Remove a node from all assignments, both as leader and as replica.
    ///
    /// Shards the node led lose their assignment entirely; elsewhere the node
    /// leaves the replica lists. Returns the shard IDs whose assignment was
    /// modified, each once.
    pub fn remove_node(&mut self, node_id: &str) -> (r: Vec<u64>)
        requires
            old(self).wf(),
        ensures
            final(self).wf(),
            final(self).local_node() == old(self).local_node(),
            final(self).assignments() == without_node(old(self).assignments(), node_id@),
            r@.no_duplicates(),
            forall|k: u64| #[trigger]
                r@.contains(k) <==> (old(self).assignments().contains_key(k) && involves(node_id@)(
                    old(self).assignments()[k],
                )),
    {
        let node = owned(node_id);
        let ghost s = assignment_views(self.assignments@);
        let ghost m0 = self.assignments();
        let ghost keep = |a: ShardAssignmentView| a.leader != node_id@;
        let ghost g = |a: ShardAssignmentView|
            ShardAssignmentView { replicas: a.replicas.filter(differs_from(node_id@)), ..a };
        proof {
            lemma_keyed_map_index(s, shard_key());
        }
        let mut kept: Vec<ShardAssignment> = Vec::new();
        let mut affected: Vec<u64> = Vec::new();
        let n = self.assignments.len();
        let mut i: usize = 0;
        proof {
            assert(assignment_views(kept@) =~= Seq::<ShardAssignmentView>::empty());
            assert(keyed_map(assignment_views(kept@), shard_key()) =~= Map::<u64, ShardAssignmentView>::empty());
        }
        while i < n
            invariant
                n == self.assignments.len(),
                i <= n,
                s == assignment_views(self.assignments@),
                unique_keys(s, shard_key()),
                node@ == node_id@,
                keep == (|a: ShardAssignmentView| a.leader != node_id@),
                g == (|a: ShardAssignmentView|
                    ShardAssignmentView { replicas: a.replicas.filter(differs_from(node_id@)), ..a }),
                unique_keys(assignment_views(kept@), shard_key()),
                forall|j: int| 0 <= j < kept.len() ==> exists|a: int| 0 <= a < i && #[trigger] s[a].shard_id == (#[trigger] kept@[j]).shard_id,
                forall|j: int| 0 <= j < kept.len() ==> #[trigger] kept@[j]@ == g(s[index_of_shard(s, kept@[j].shard_id)]),
                forall|j: int| 0 <= j < kept.len() ==> keep(s[index_of_shard(s, (#[trigger] kept@[j]).shard_id)]),
                forall|a: int| 0 <= a < i && keep(#[trigger] s[a]) ==> has_key(assignment_views(kept@), shard_key(), s[a].shard_id),
                affected@.no_duplicates(),
                forall|k: u64| #[trigger] affected@.contains(k) <==> exists|a: int| 0 <= a < i && #[trigger] s[a].shard_id == k && involves(node_id@)(s[a]),
            decreases n - i,
        {
            proof {
                assert forall|a: int| 0 <= a < i implies #[trigger] s[a].shard_id != s[i as int].shard_id by {
                    assert(shard_key()(s[a]) != shard_key()(s[i as int]));
                }
                lemma_index_of_shard(s, i as int);
            }
            assert(self.assignments@[i as int]@ == s[i as int]);
            let is_leader = self.assignments[i].leader == node;
            let is_replica = contains_text(&self.assignments[i].replicas, &node);
            let ghost aff_before = affected@;
            if is_leader || is_replica {
                affected.push(self.assignments[i].shard_id);
                proof {
                    assert(!aff_before.contains(s[i as int].shard_id));
                    assert forall|a: int, b: int| 0 <= a < affected@.len() && 0 <= b < affected@.len() && a != b implies affected@[a] != affected@[b] by {
                        if b == aff_before.len() {
                            assert(aff_before.contains(aff_before[a]));
                        } else if a == aff_before.len() {
                            assert(aff_before.contains(aff_before[b]));
                        }
                    }
                }
            }
            proof {
                assert forall|k: u64| #[trigger] affected@.contains(k) <==> exists|a: int| 0 <= a < i + 1 && #[trigger] s[a].shard_id == k && involves(node_id@)(s[a]) by {
                    if affected@.len() > aff_before.len() {
                        if k == s[i as int].shard_id {
                            assert(affected@[aff_before.len() as int] == k);
                        }
                        if aff_before.contains(k) {
                            let a = choose|a: int| 0 <= a < aff_before.len() && aff_before[a] == k;
                            assert(affected@[a] == k);
                        }
                    }
                }
            }
            if !is_leader {
                let replicas = without_text(&self.assignments[i].replicas, &node);
                let a = ShardAssignment {
                    shard_id: self.assignments[i].shard_id,
                    leader: self.assignments[i].leader.clone(),
                    replicas,
                };
                let ghost kb = assignment_views(kept@);
                assert(a@ == g(s[i as int]));
                kept.push(a);
                proof {
                    assert(assignment_views(kept@) =~= kb.push(g(s[i as int])));
                    assert(!has_key(kb, shard_key(), s[i as int].shard_id)) by {
                        if has_key(kb, shard_key(), s[i as int].shard_id) {
                            let j = choose|j: int| 0 <= j < kb.len() && shard_key()(#[trigger] kb[j]) == s[i as int].shard_id;
                            assert(kb[j] == kept@[j]@);
                            let a2 = choose|a2: int| 0 <= a2 < i && #[trigger] s[a2].shard_id == kept@[j].shard_id;
                        }
                    }
                    lemma_keyed_push(kb, shard_key(), g(s[i as int]));
                    assert forall|j: int| 0 <= j < kept.len() implies #[trigger] kept@[j]@ == g(s[index_of_shard(s, kept@[j].shard_id)])
                        && keep(s[index_of_shard(s, kept@[j].shard_id)]) by {
                        if j < kb.len() {
                            assert(kept@[j]@ == kb[j]);
                        }
                    }
                    assert forall|j: int| 0 <= j < kept.len() implies exists|a2: int| 0 <= a2 < i + 1 && #[trigger] s[a2].shard_id == (#[trigger] kept@[j]).shard_id by {
                        if j == kb.len() {
                            assert(s[i as int].shard_id == kept@[j].shard_id);
                        } else {
                            assert(kept@[j]@ == kb[j]);
                        }
                    }
                    assert forall|a2: int| 0 <= a2 < i + 1 && keep(#[trigger] s[a2]) implies has_key(assignment_views(kept@), shard_key(), s[a2].shard_id) by {
                        if a2 == i {
                            assert(shard_key()(assignment_views(kept@)[kb.len() as int]) == s[a2].shard_id);
                        } else {
                            let j = choose|j: int| 0 <= j < kb.len() && shard_key()(#[trigger] kb[j]) == s[a2].shard_id;
                            assert(assignment_views(kept@)[j] == kb[j]);
                        }
                    }
                }
            }
            i = i + 1;
        }
        proof {
            let kv = assignment_views(kept@);
            lemma_keyed_map_index(kv, shard_key());
            let target = without_node(m0, node_id@);
            assert forall|k: u64| #[trigger] keyed_map(kv, shard_key()).contains_key(k) <==> target.contains_key(k) by {
                if has_key(kv, shard_key(), k) {
                    let j = choose|j: int| 0 <= j < kv.len() && shard_key()(#[trigger] kv[j]) == k;
                    assert(kv[j] == kept@[j]@);
                    let a = choose|a: int| 0 <= a < n && #[trigger] s[a].shard_id == kept@[j].shard_id;
                    lemma_index_of_shard(s, a);
                    assert(has_key(s, shard_key(), k));
                    assert(m0[s[a].shard_id] == s[a]);
                }
                if target.contains_key(k) {
                    let a = choose|a: int| 0 <= a < s.len() && shard_key()(#[trigger] s[a]) == k;
                    assert(m0[s[a].shard_id] == s[a]);
                    assert(keep(s[a]));
                }
            }
            assert forall|k: u64| #[trigger] keyed_map(kv, shard_key()).contains_key(k) implies keyed_map(kv, shard_key())[k] == target[k] by {
                let j = choose|j: int| 0 <= j < kv.len() && shard_key()(#[trigger] kv[j]) == k;
                assert(kv[j] == kept@[j]@);
                assert(keyed_map(kv, shard_key())[shard_key()(kv[j])] == kv[j]);
                let a = choose|a: int| 0 <= a < n && #[trigger] s[a].shard_id == kept@[j].shard_id;
                lemma_index_of_shard(s, a);
                assert(m0[s[a].shard_id] == s[a]);
            }
            assert(keyed_map(kv, shard_key()) =~= target);
            assert forall|k: u64| #[trigger] affected@.contains(k) <==> (m0.contains_key(k) && involves(node_id@)(m0[k])) by {
                if m0.contains_key(k) {
                    let a = choose|a: int| 0 <= a < s.len() && shard_key()(#[trigger] s[a]) == k;
                    assert(m0[s[a].shard_id] == s[a]);
                }
                if affected@.contains(k) {
                    let a = choose|a: int| 0 <= a < n && #[trigger] s[a].shard_id == k && involves(node_id@)(s[a]);
                    assert(has_key(s, shard_key(), k));
                    assert(m0[s[a].shard_id] == s[a]);
                }
            }
        }
        self.assignments = kept;
        affected
    }

    /// List all shard assignments owned by this node (as leader or replica).
    pub fn my_shards(&self) -> (r: Vec<&ShardAssignment>)
        requires
            self.wf(),
        ensures
            unique_keys(assignment_ref_views(r@), shard_key()),
            keyed_map(assignment_ref_views(r@), shard_key()) == filter_map(
                self.assignments(),
                involves(self.local_node()),
            ),
    {
        let ghost s = assignment_views(self.assignments@);
        let ghost p = involves(self.node_id@);
        let mut out: Vec<&ShardAssignment> = Vec::new();
        let n = self.assignments.len();
        let mut i: usize = 0;
        proof {
            assert(s.take(0) =~= Seq::<ShardAssignmentView>::empty());
            assert(assignment_ref_views(out@) =~= Seq::<ShardAssignmentView>::empty());
            assert(keyed_map(assignment_ref_views(out@), shard_key()) =~= filter_map(
                keyed_map(s.take(0), shard_key()),
                p,
            ));
        }
        while i < n
            invariant
                n == self.assignments.len(),
                i <= n,
                self.wf(),
                s == assignment_views(self.assignments@),
                p == involves(self.node_id@),
                unique_keys(assignment_ref_views(out@), shard_key()),
                keyed_map(assignment_ref_views(out@), shard_key()) == filter_map(
                    keyed_map(s.take(i as int), shard_key()),
                    p,
                ),
            decreases n - i,
        {
            proof {
                lemma_filter_step(s, shard_key(), p, assignment_ref_views(out@), i as int);
            }
            assert(self.assignments@[i as int]@ == s[i as int]);
            let mine = self.assignments[i].leader == self.node_id || contains_text(
                &self.assignments[i].replicas,
                &self.node_id,
            );
            if mine {
                let ghost before = assignment_ref_views(out@);
                out.push(&self.assignments[i]);
                proof {
                    assert(assignment_ref_views(out@) =~= before.push(s[i as int]));
                }
            }
            i = i + 1;
        }
        proof {
            assert(s.take(n as int) =~= s);
        }
        out
    }

    /// Return all assigned (shard_id, leader_node_id) pairs, one per shard.
    pub fn assigned_leaders(&self) -> (r: Vec<(u64, String)>)
        requires
            self.wf(),
        ensures
            unique_keys(r@, first_key()),
            forall|j: int|
                0 <= j < r.len() ==> #[trigger] self.assignments().contains_key(r@[j].0)
                    && self.assignments()[r@[j].0].leader == r@[j].1@,
            forall|k: u64| #[trigger]
                self.assignments().contains_key(k) ==> has_key(r@, first_key(), k),
    {
        let ghost s = assignment_views(self.assignments@);
        proof {
            lemma_keyed_map_index(s, shard_key());
        }
        let mut out: Vec<(u64, String)> = Vec::new();
        let n = self.assignments.len();
        let mut i: usize = 0;
        while i < n
            invariant
                n == self.assignments.len(),
                i <= n,
                s == assignment_views(self.assignments@),
                out.len() == i,
                forall|j: int| 0 <= j < i ==> #[trigger] out@[j].0 == s[j].shard_id && out@[j].1@ == s[j].leader,
            decreases n - i,
        {
            out.push((self.assignments[i].shard_id, self.assignments[i].leader.clone()));
            i = i + 1;
        }
        proof {
            assert forall|a: int, b: int| 0 <= a < b < out@.len() implies first_key()(#[trigger] out@[a]) != first_key()(#[trigger] out@[b]) by {
                assert(shard_key()(s[a]) != shard_key()(s[b]));
            }
            assert forall|j: int| 0 <= j < out.len() implies #[trigger] self.assignments().contains_key(out@[j].0)
                && self.assignments()[out@[j].0].leader == out@[j].1@ by {
                assert(has_key(s, shard_key(), s[j].shard_id));
            }
            assert forall|k: u64| #[trigger] self.assignments().contains_key(k) implies has_key(out@, first_key(), k) by {
                let j = choose|j: int| 0 <= j < s.len() && shard_key()(#[trigger] s[j]) == k;
                assert(first_key()(out@[j]) == k);
            }
        }
        out
    }

    /// Return the number of assigned shards.
    pub fn len(&self) -> (r: usize)
        requires
            self.wf(),
        ensures
            r == self.assignments().len(),
            self.assignments().dom().finite(),
    {
        proof {
            lemma_keyed_len(assignment_views(self.assignments@), shard_key());
            lemma_keyed_map_index(assignment_views(self.assignments@), shard_key());
        }
        self.assignments.len()
    }

    /// Return `true` if no shards are assigned.
    pub fn is_empty(&self) -> (r: bool)
        requires
            self.wf(),
        ensures
            r == (self.assignments().len() == 0),
    {
        self.len() == 0
    }
}

/// The position of the record of shard `k` in `s` (meaningful when present).
pub open spec fn index_of_shard(s: Seq<ShardAssignmentView>, k: u64) -> int {
    choose|a: int| 0 <= a < s.len() && s[a].shard_id == k
}

/// With distinct shards, the record at position `a` is the one found for its shard.
pub proof fn lemma_index_of_shard(s: Seq<ShardAssignmentView>, a: int)
    requires
        unique_keys(s, shard_key()),
        0 <= a < s.len(),
    ensures
        index_of_shard(s, s[a].shard_id) == a,
{
    let b = index_of_shard(s, s[a].shard_id);
    assert(0 <= b < s.len() && s[b].shard_id == s[a].shard_id);
    if b != a {
        if a < b {
            assert(shard_key()(s[a]) != shard_key()(s[b]));
        } else {
            assert(shard_key()(s[b]) != shard_key()(s[a]));
        }
    }
}

} // verus!
