//! WAL replication tracking on a shard leader.
//!
//! Each shard leader runs a [`ReplicationEngine`] that tracks replicas and
//! their acknowledgment state. New WAL entries are queued; followers
//! acknowledge receipt, and the leader updates each replica's watermark and
//! state accordingly.

use vstd::prelude::*;
use std::time::Instant;
use crate::clock::instant_now;
use crate::error::Error;
use crate::keyed::{
    first_key, has_key, keyed_map, lemma_keyed_len, lemma_keyed_map_all, lemma_keyed_map_index,
    lemma_keyed_push, lemma_keyed_remove, lemma_keyed_update, unique_keys,
};
use crate::text::owned;

verus! {

/// Replication state for a single replica.
#[derive(Debug, Clone, Copy, PartialEq, Eq, Structural)]
pub enum ReplicaState {
    /// Fully synced with leader — no pending entries.
    Synced,
    /// Catching up — has missed some entries.
    Lagging(u64),
    /// Disconnected — replica is unreachable or too far behind.
    Disconnected,
}

/// A single replication entry (WAL entry wrapper for wire transfer).
#[derive(Debug, Clone)]
pub struct ReplicationEntry {
    pub txn_id: u64,
    pub shard_id: u64,
    pub op_code: u8,
    pub payload: Vec<u8>,
}

/// The value of a [`ReplicationEntry`].
pub struct ReplicationEntryView {
    pub txn_id: u64,
    pub shard_id: u64,
    pub op_code: u8,
    pub payload: Seq<u8>,
}

impl View for ReplicationEntry {
    type V = ReplicationEntryView;

    open spec fn view(&self) -> ReplicationEntryView {
        ReplicationEntryView {
            txn_id: self.txn_id,
            shard_id: self.shard_id,
            op_code: self.op_code,
            payload: self.payload@,
        }
    }
}

impl ReplicationEntry {
    /// A copy of this entry.
    pub fn duplicate(&self) -> (r: Self)
        ensures
            r@ == self@,
    {
        let payload = self.payload.clone();
        proof {
            assert(payload@ =~= self.payload@);
        }
        ReplicationEntry {
            txn_id: self.txn_id,
            shard_id: self.shard_id,
            op_code: self.op_code,
            payload,
        }
    }
}

/// Replica information tracked by the leader.
#[derive(Debug, Clone)]
pub struct ReplicaInfo {
    pub node_id: String,
    pub addr: String,
    pub state: ReplicaState,
    pub last_acked_txn_id: u64,
    pub last_heartbeat: Instant,
}

/// The value of a [`ReplicaInfo`].
pub struct ReplicaInfoView {
    pub node_id: Seq<char>,
    pub addr: Seq<char>,
    pub state: ReplicaState,
    pub last_acked_txn_id: u64,
    pub last_heartbeat: Instant,
}

impl View for ReplicaInfo {
    type V = ReplicaInfoView;

    open spec fn view(&self) -> ReplicaInfoView {
        ReplicaInfoView {
            node_id: self.node_id@,
            addr: self.addr@,
            state: self.state,
            last_acked_txn_id: self.last_acked_txn_id,
            last_heartbeat: self.last_heartbeat,
        }
    }
}

impl ReplicaInfo {
    /// A copy of this record.
    pub fn duplicate(&self) -> (r: Self)
        ensures
            r@ == self@,
    {
        ReplicaInfo {
            node_id: self.node_id.clone(),
            addr: self.addr.clone(),
            state: self.state,
            last_acked_txn_id: self.last_acked_txn_id,
            last_heartbeat: self.last_heartbeat,
        }
    }
}

/// Response from a replication request.
#[derive(Debug, Clone)]
pub struct ReplicationResponse {
    pub success: bool,
    pub last_acked_txn_id: u64,
    pub error: Option<String>,
}

/// Configuration for the replication engine.
#[derive(Debug, Clone, Copy)]
pub struct ReplicationConfig {
    /// Max entries to batch in one replication request.
    pub batch_size: usize,
    /// Interval between replication attempts (ms).
    pub replication_interval_ms: u64,
    /// Timeout for follower ack (ms).
    pub ack_timeout_ms: u64,
    /// Maximum lag before marking replica as Disconnected.
    pub max_lag_entries: u64,
}

impl Default for ReplicationConfig {
    fn default() -> (r: Self)
        ensures
            r.batch_size == 100,
            r.replication_interval_ms == 50,
            r.ack_timeout_ms == 1000,
            r.max_lag_entries == 10000,
    {
        ReplicationConfig {
            batch_size: 100,
            replication_interval_ms: 50,
            ack_timeout_ms: 1000,
            max_lag_entries: 10000,
        }
    }
}

/// `a - b`, or 0 when `b > a`.
pub open spec fn sat_sub(a: u64, b: u64) -> u64 {
    if a >= b {
        (a - b) as u64
    } else {
        0
    }
}

/// A replica's state after an entry is recorded that leaves it `lag` entries
/// behind: `Disconnected` beyond the maximum lag, `Lagging(lag)` when behind,
/// and when caught up a `Disconnected` replica becomes `Synced` while any
/// other state is kept.
pub open spec fn state_after_record(st: ReplicaState, lag: u64, max_lag: u64) -> ReplicaState {
    if lag > max_lag {
        ReplicaState::Disconnected
    } else if lag > 0 {
        ReplicaState::Lagging(lag)
    } else if st == ReplicaState::Disconnected {
        ReplicaState::Synced
    } else {
        st
    }
}

/// A replica's state after an acknowledgment leaves it `lag` entries behind.
pub open spec fn state_after_ack(lag: u64, max_lag: u64) -> ReplicaState {
    if lag == 0 {
        ReplicaState::Synced
    } else if lag > max_lag {
        ReplicaState::Disconnected
    } else {
        ReplicaState::Lagging(lag)
    }
}

/// The key of a replica record: its node id.
pub open spec fn replica_key() -> spec_fn(ReplicaInfoView) -> Seq<char> {
    |v: ReplicaInfoView| v.node_id
}

/// The values of a sequence of replica records.
pub open spec fn replica_views(s: Seq<ReplicaInfo>) -> Seq<ReplicaInfoView> {
    s.map_values(|r: ReplicaInfo| r@)
}

/// The values of a sequence of entries.
pub open spec fn entry_views(s: Seq<ReplicationEntry>) -> Seq<ReplicationEntryView> {
    s.map_values(|e: ReplicationEntry| e@)
}

/// The entry is newer than transaction `t`.
pub open spec fn newer_than(t: u64) -> spec_fn(ReplicationEntryView) -> bool {
    |e: ReplicationEntryView| e.txn_id > t
}

/// The highest transaction id known: that of the last pending entry, or 0.
pub open spec fn last_txn(pending: Seq<ReplicationEntryView>) -> u64 {
    if pending.len() == 0 {
        0
    } else {
        pending.last().txn_id
    }
}

/// `m` is the smallest acknowledged transaction id over all replicas, of
/// which there is at least one.
pub open spec fn is_ack_floor(reps: Map<Seq<char>, ReplicaInfoView>, m: u64) -> bool {
    &&& exists|k: Seq<char>|
        #[trigger] reps.contains_key(k) && reps[k].last_acked_txn_id == m
    &&& forall|k: Seq<char>| #[trigger] reps.contains_key(k) ==> reps[k].last_acked_txn_id >= m
}

/// The entries of `s` newer than transaction `t`, in order.
fn copy_newer(s: &Vec<ReplicationEntry>, t: u64) -> (r: Vec<ReplicationEntry>)
    ensures
        entry_views(r@) == entry_views(s@).filter(newer_than(t)),
{
    let ghost sv = entry_views(s@);
    let mut out: Vec<ReplicationEntry> = Vec::new();
    let n = s.len();
    let mut i: usize = 0;
    proof {
        reveal_with_fuel(Seq::<_>::filter, 1);
        assert(sv.take(0) =~= Seq::<ReplicationEntryView>::empty());
        assert(entry_views(out@) =~= Seq::<ReplicationEntryView>::empty());
    }
    while i < n
        invariant
            n == s.len(),
            i <= n,
            sv == entry_views(s@),
            entry_views(out@) == sv.take(i as int).filter(newer_than(t)),
        decreases n - i,
    {
        proof {
            reveal_with_fuel(Seq::<_>::filter, 1);
            assert(sv.take(i + 1).drop_last() =~= sv.take(i as int));
            assert(sv.take(i + 1).last() == sv[i as int]);
        }
        if s[i].txn_id > t {
            let ghost before = entry_views(out@);
            out.push(s[i].duplicate());
            proof {
                assert(entry_views(out@) =~= before.push(sv[i as int]));
            }
        }
        i = i + 1;
    }
    proof {
        assert(sv.take(n as int) =~= sv);
    }
    out
}

/// Replication manager running on each shard leader.
pub struct ReplicationEngine {
    shard_id: u64,
    replicas: Vec<ReplicaInfo>,
    pending_entries: Vec<ReplicationEntry>,
    config: ReplicationConfig,
}

impl ReplicationEngine {
    /// No two replica records share a node id.
    pub closed spec fn wf(&self) -> bool {
        unique_keys(replica_views(self.replicas@), replica_key())
    }

    /// The tracked replicas, by node id.
    pub closed spec fn replicas(&self) -> Map<Seq<char>, ReplicaInfoView> {
        keyed_map(replica_views(self.replicas@), replica_key())
    }

    /// The pending entries, oldest first.
    pub closed spec fn pending(&self) -> Seq<ReplicationEntryView> {
        entry_views(self.pending_entries@)
    }

    /// The shard this engine manages.
    pub closed spec fn shard_id_spec(&self) -> u64 {
        self.shard_id
    }

    /// The configuration.
    pub closed spec fn config_spec(&self) -> ReplicationConfig {
        self.config
    }

    /// The replication lag of a replica: how far the last pending entry is
    /// beyond what it acknowledged.
    pub open spec fn lag_of(&self, v: ReplicaInfoView) -> u64 {
        sat_sub(last_txn(self.pending()), v.last_acked_txn_id)
    }

    /// Create a new `ReplicationEngine` for the given shard.
    pub fn new(shard_id: u64, _node_id: &str, config: ReplicationConfig) -> (r: Self)
        ensures
            r.wf(),
            r.shard_id_spec() == shard_id,
            r.config_spec() == config,
            r.replicas() == Map::<Seq<char>, ReplicaInfoView>::empty(),
            r.pending() == Seq::<ReplicationEntryView>::empty(),
    {
        let r = ReplicationEngine {
            shard_id,
            replicas: Vec::new(),
            pending_entries: Vec::new(),
            config,
        };
        proof {
            assert(replica_views(r.replicas@) =~= Seq::<ReplicaInfoView>::empty());
            assert(r.pending() =~= Seq::<ReplicationEntryView>::empty());
        }
        r
    }

    /// Return the shard ID this engine manages.
    pub fn shard_id(&self) -> (r: u64)
        ensures
            r == self.shard_id_spec(),
    {
        self.shard_id
    }

    /// Return the replication config.
    pub fn config(&self) -> (r: &ReplicationConfig)
        ensures
            *r == self.config_spec(),
    {
        &self.config
    }

    /// The position of the record of `node_id`, if any.
    fn find(&self, node_id: &String) -> (r: Option<usize>)
        requires
            self.wf(),
        ensures
            r is Some <==> self.replicas().contains_key(node_id@),
            r matches Some(i) ==> i < self.replicas.len() && self.replicas@[i as int].node_id@
                == node_id@ && self.replicas()[node_id@] == self.replicas@[i as int]@,
    {
        proof {
            lemma_keyed_map_index(replica_views(self.replicas@), replica_key());
        }
        let n = self.replicas.len();
        let mut i: usize = 0;
        while i < n
            invariant
                n == self.replicas.len(),
                i <= n,
                self.wf(),
                forall|j: int| 0 <= j < i ==> self.replicas@[j].node_id@ != node_id@,
            decreases n - i,
        {
            if self.replicas[i].node_id == *node_id {
                proof {
                    lemma_keyed_map_index(replica_views(self.replicas@), replica_key());
                    assert(replica_views(self.replicas@)[i as int] == self.replicas@[i as int]@);
                    assert(has_key(replica_views(self.replicas@), replica_key(), node_id@));
                }
                return Some(i);
            }
            i = i + 1;
        }
        proof {
            if has_key(replica_views(self.replicas@), replica_key(), node_id@) {
                let j = choose|j: int|
                    0 <= j < replica_views(self.replicas@).len() && replica_key()(
                        #[trigger] replica_views(self.replicas@)[j],
                    ) == node_id@;
                assert(replica_views(self.replicas@)[j] == self.replicas@[j]@);
            }
        }
        None
    }

    /// Put a replica record, replacing any record of the same node.
    fn put(&mut self, info: ReplicaInfo)
        requires
            old(self).wf(),
        ensures
            final(self).wf(),
            final(self).replicas() == old(self).replicas().insert(info@.node_id, info@),
            final(self).pending() == old(self).pending(),
            final(self).shard_id_spec() == old(self).shard_id_spec(),
            final(self).config_spec() == old(self).config_spec(),
    {
        let ghost s = replica_views(self.replicas@);
        let ghost v = info@;
        match self.find(&info.node_id) {
            Some(i) => {
                self.replicas.set(i, info);
                proof {
                    assert(replica_views(self.replicas@) =~= s.update(i as int, v));
                    lemma_keyed_update(s, replica_key(), i as int, v);
                }
            },
            None => {
                proof {
                    lemma_keyed_map_index(s, replica_key());
                }
                self.replicas.push(info);
                proof {
                    assert(replica_views(self.replicas@) =~= s.push(v));
                    lemma_keyed_push(s, replica_key(), v);
                }
            },
        }
    }

    /// Add a replica for this shard (replacing any earlier record of the
    /// node): synced, nothing acknowledged, heartbeat now.
    pub fn add_replica(&mut self, node_id: &str, addr: &str)
        requires
            old(self).wf(),
        ensures
            final(self).wf(),
            final(self).replicas().dom() == old(self).replicas().dom().insert(node_id@),
            forall|k: Seq<char>| #[trigger]
                old(self).replicas().contains_key(k) && k != node_id@ ==> final(self).replicas()[k]
                    == old(self).replicas()[k],
            ({
                let v = final(self).replicas()[node_id@];
                &&& v.node_id == node_id@
                &&& v.addr == addr@
                &&& v.state == ReplicaState::Synced
                &&& v.last_acked_txn_id == 0
            }),
            final(self).pending() == old(self).pending(),
            final(self).shard_id_spec() == old(self).shard_id_spec(),
            final(self).config_spec() == old(self).config_spec(),
    {
        self.add_replica_at(node_id, addr, instant_now());
    }

    /// Add a replica for this shard at time `now` (replacing any earlier
    /// record of the node): synced, nothing acknowledged, heartbeat `now`.
    pub fn add_replica_at(&mut self, node_id: &str, addr: &str, now: Instant)
        requires
            old(self).wf(),
        ensures
            final(self).wf(),
            final(self).replicas().dom() == old(self).replicas().dom().insert(node_id@),
            forall|k: Seq<char>| #[trigger]
                old(self).replicas().contains_key(k) && k != node_id@ ==> final(self).replicas()[k]
                    == old(self).replicas()[k],
            ({
                let v = final(self).replicas()[node_id@];
                &&& v.node_id == node_id@
                &&& v.addr == addr@
                &&& v.state == ReplicaState::Synced
                &&& v.last_acked_txn_id == 0
                &&& v.last_heartbeat == now
            }),
            final(self).pending() == old(self).pending(),
            final(self).shard_id_spec() == old(self).shard_id_spec(),
            final(self).config_spec() == old(self).config_spec(),
    {
        let info = ReplicaInfo {
            node_id: owned(node_id),
            addr: owned(addr),
            state: ReplicaState::Synced,
            last_acked_txn_id: 0,
            last_heartbeat: now,
        };
        self.put(info);
    }

    /// Remove a replica.
    pub fn remove_replica(&mut self, node_id: &str)
        requires
            old(self).wf(),
        ensures
            final(self).wf(),
            final(self).replicas() == old(self).replicas().remove(node_id@),
            final(self).pending() == old(self).pending(),
            final(self).shard_id_spec() == old(self).shard_id_spec(),
            final(self).config_spec() == old(self).config_spec(),
    {
        let id = owned(node_id);
        match self.find(&id) {
            Some(i) => {
                let ghost s = replica_views(self.replicas@);
                self.replicas.remove(i);
                proof {
                    assert(replica_views(self.replicas@) =~= s.remove(i as int));
                    lemma_keyed_remove(s, replica_key(), i as int);
                }
            },
            None => {
                proof {
                    assert(old(self).replicas().remove(node_id@) =~= old(self).replicas());
                }
            },
        }
    }

    /// Check if a replica is registered.
    pub fn has_replica(&self, node_id: &str) -> (r: bool)
        requires
            self.wf(),
        ensures
            r == self.replicas().contains_key(node_id@),
    {
        let id = owned(node_id);
        self.find(&id).is_some()
    }

    /// Return the number of tracked replicas.
    pub fn replica_count(&self) -> (r: usize)
        requires
            self.wf(),
        ensures
            r == self.replicas().len(),
            self.replicas().dom().finite(),
    {
        proof {
            lemma_keyed_len(replica_views(self.replicas@), replica_key());
            lemma_keyed_map_index(replica_views(self.replicas@), replica_key());
        }
        self.replicas.len()
    }

    /// Return a copy of the replica info for a given node, if registered.
    pub fn replica_info(&self, node_id: &str) -> (r: Option<ReplicaInfo>)
        requires
            self.wf(),
        ensures
            r is Some <==> self.replicas().contains_key(node_id@),
            r matches Some(v) ==> v@ == self.replicas()[node_id@],
    {
        let id = owned(node_id);
        match self.find(&id) {
            Some(i) => Some(self.replicas[i].duplicate()),
            None => None,
        }
    }

    /// Record a new WAL entry for replication.
    ///
    /// Appends the entry to the pending queue and updates every replica's
    /// state from its lag behind the new entry.
    pub fn record_entry(&mut self, entry: ReplicationEntry) -> (r: Result<(), Error>)
        requires
            old(self).wf(),
        ensures
            r is Ok,
            final(self).wf(),
            final(self).pending() == old(self).pending().push(entry@),
            final(self).replicas() == Map::new(
                |k: Seq<char>| old(self).replicas().contains_key(k),
                |k: Seq<char>|
                    ReplicaInfoView {
                        state: state_after_record(
                            old(self).replicas()[k].state,
                            sat_sub(entry.txn_id, old(self).replicas()[k].last_acked_txn_id),
                            old(self).config_spec().max_lag_entries,
                        ),
                        ..old(self).replicas()[k]
                    },
            ),
            final(self).shard_id_spec() == old(self).shard_id_spec(),
            final(self).config_spec() == old(self).config_spec(),
    {
        let max_txn_id = entry.txn_id;
        let ghost pending0 = self.pending();
        let ghost ev = entry@;
        self.pending_entries.push(entry);
        proof {
            assert(self.pending() =~= pending0.push(ev));
        }
        let max_lag = self.config.max_lag_entries;
        let ghost s0 = replica_views(self.replicas@);
        let ghost f = |v: ReplicaInfoView|
            ReplicaInfoView {
                state: state_after_record(v.state, sat_sub(max_txn_id, v.last_acked_txn_id), max_lag),
                ..v
            };
        let n = self.replicas.len();
        let mut i: usize = 0;
        while i < n
            invariant
                n == self.replicas.len(),
                i <= n,
                s0.len() == n,
                max_lag == self.config.max_lag_entries,
                self.pending() == pending0.push(ev),
                f == (|v: ReplicaInfoView|
                    ReplicaInfoView {
                        state: state_after_record(v.state, sat_sub(max_txn_id, v.last_acked_txn_id), max_lag),
                        ..v
                    }),
                self.shard_id == old(self).shard_id,
                self.config == old(self).config,
                forall|j: int|
                    0 <= j < n ==> #[trigger] self.replicas@[j]@ == (if j < i {
                        f(s0[j])
                    } else {
                        s0[j]
                    }),
            decreases n - i,
        {
            assert(self.replicas@[i as int]@ == s0[i as int]);
            let mut x = self.replicas[i].duplicate();
            let last = x.last_acked_txn_id;
            let lag = max_txn_id.saturating_sub(last);
            x.state = if lag > max_lag {
                ReplicaState::Disconnected
            } else if lag > 0 {
                ReplicaState::Lagging(lag)
            } else if x.state == ReplicaState::Disconnected {
                ReplicaState::Synced
            } else {
                x.state
            };
            assert(x@ == f(s0[i as int]));
            let ghost before = self.replicas@;
            self.replicas.set(i, x);
            proof {
                assert forall|j: int| 0 <= j < n implies #[trigger] self.replicas@[j]@ == (if j < i + 1 {
                    f(s0[j])
                } else {
                    s0[j]
                }) by {
                    if j != i {
                        assert(self.replicas@[j] == before[j]);
                    }
                }
            }
            i = i + 1;
        }
        proof {
            let s1 = replica_views(self.replicas@);
            assert forall|j: int| 0 <= j < s0.len() implies #[trigger] s1[j] == f(s0[j]) && replica_key()(
                s1[j],
            ) == replica_key()(s0[j]) by {
                assert(s1[j] == self.replicas@[j]@);
            }
            lemma_keyed_map_all(s0, s1, replica_key(), f);
            assert(self.replicas() =~= Map::new(
                |k: Seq<char>| old(self).replicas().contains_key(k),
                |k: Seq<char>|
                    ReplicaInfoView {
                        state: state_after_record(
                            old(self).replicas()[k].state,
                            sat_sub(ev.txn_id, old(self).replicas()[k].last_acked_txn_id),
                            old(self).config_spec().max_lag_entries,
                        ),
                        ..old(self).replicas()[k]
                    },
            ));
        }
        Ok(())
    }

    /// The highest known transaction id: that of the last pending entry, or 0.
    fn max_txn_id(&self) -> (r: u64)
        ensures
            r == last_txn(self.pending()),
    {
        let n = self.pending_entries.len();
        if n == 0 {
            0
        } else {
            self.pending_entries[n - 1].txn_id
        }
    }

    /// Get pending entries that need to be sent to a specific replica.
    ///
    /// Returns entries with `txn_id > last_acked_txn_id` for the given
    /// replica. Returns an empty vec if the replica is not registered.
    pub fn pending_for_replica(&self, replica_id: &str) -> (r: Vec<ReplicationEntry>)
        requires
            self.wf(),
        ensures
            entry_views(r@) == (if self.replicas().contains_key(replica_id@) {
                self.pending().filter(
                    newer_than(self.replicas()[replica_id@].last_acked_txn_id),
                )
            } else {
                Seq::empty()
            }),
    {
        let id = owned(replica_id);
        match self.find(&id) {
            Some(i) => copy_newer(&self.pending_entries, self.replicas[i].last_acked_txn_id),
            None => {
                let r = Vec::new();
                proof {
                    assert(entry_views(r@) =~= Seq::<ReplicationEntryView>::empty());
                }
                r
            },
        }
    }

    /// Return the total number of pending entries.
    pub fn pending_count(&self) -> (r: usize)
        ensures
            r == self.pending().len(),
    {
        self.pending_entries.len()
    }

    /// Mark a txn_id as acknowledged by a replica.
    ///
    /// Raises the replica's `last_acked_txn_id` to `txn_id` (it never goes
    /// down), resets its heartbeat to now, and recomputes its state from the
    /// remaining lag. Unknown replicas are ignored.
    pub fn ack(&mut self, replica_id: &str, txn_id: u64)
        requires
            old(self).wf(),
        ensures
            final(self).wf(),
            final(self).pending() == old(self).pending(),
            final(self).shard_id_spec() == old(self).shard_id_spec(),
            final(self).config_spec() == old(self).config_spec(),
            final(self).replicas().dom() == old(self).replicas().dom(),
            forall|k: Seq<char>| #[trigger]
                old(self).replicas().contains_key(k) && k != replica_id@ ==> final(self).replicas()[k]
                    == old(self).replicas()[k],
            old(self).replicas().contains_key(replica_id@) ==> ({
                let o = old(self).replicas()[replica_id@];
                let v = final(self).replicas()[replica_id@];
                let acked = if txn_id > o.last_acked_txn_id {
                    txn_id
                } else {
                    o.last_acked_txn_id
                };
                &&& v.node_id == o.node_id
                &&& v.addr == o.addr
                &&& v.last_acked_txn_id == acked
                &&& v.state == state_after_ack(
                    sat_sub(last_txn(old(self).pending()), acked),
                    old(self).config_spec().max_lag_entries,
                )
                &&& (v.state == ReplicaState::Synced <==> last_txn(old(self).pending()) <= acked)
                &&& (v.state == ReplicaState::Disconnected <==> last_txn(old(self).pending()) - acked
                    > old(self).config_spec().max_lag_entries)
                &&& (0 < last_txn(old(self).pending()) - acked <= old(self).config_spec().max_lag_entries
                    ==> v.state == ReplicaState::Lagging((last_txn(old(self).pending()) - acked) as u64))
            }),
    {
        self.ack_at(replica_id, txn_id, instant_now());
    }

    /// Mark a txn_id as acknowledged by a replica at time `now`: as
    /// [`ReplicationEngine::ack`], with the heartbeat reset to `now`.
    pub fn ack_at(&mut self, replica_id: &str, txn_id: u64, now: Instant)
        requires
            old(self).wf(),
        ensures
            final(self).wf(),
            final(self).pending() == old(self).pending(),
            final(self).shard_id_spec() == old(self).shard_id_spec(),
            final(self).config_spec() == old(self).config_spec(),
            final(self).replicas().dom() == old(self).replicas().dom(),
            forall|k: Seq<char>| #[trigger]
                old(self).replicas().contains_key(k) && k != replica_id@ ==> final(self).replicas()[k]
                    == old(self).replicas()[k],
            old(self).replicas().contains_key(replica_id@) ==> ({
                let o = old(self).replicas()[replica_id@];
                let v = final(self).replicas()[replica_id@];
                let acked = if txn_id > o.last_acked_txn_id {
                    txn_id
                } else {
                    o.last_acked_txn_id
                };
                &&& v.node_id == o.node_id
                &&& v.addr == o.addr
                &&& v.last_acked_txn_id == acked
                &&& v.last_heartbeat == now
                &&& v.state == state_after_ack(
                    sat_sub(last_txn(old(self).pending()), acked),
                    old(self).config_spec().max_lag_entries,
                )
                &&& (v.state == ReplicaState::Synced <==> last_txn(old(self).pending()) <= acked)
                &&& (v.state == ReplicaState::Disconnected <==> last_txn(old(self).pending()) - acked
                    > old(self).config_spec().max_lag_entries)
                &&& (0 < last_txn(old(self).pending()) - acked <= old(self).config_spec().max_lag_entries
                    ==> v.state == ReplicaState::Lagging((last_txn(old(self).pending()) - acked) as u64))
            }),
    {
        let max_txn_id = self.max_txn_id();
        let id = owned(replica_id);
        match self.find(&id) {
            Some(i) => {
                let mut x = self.replicas[i].duplicate();
                if txn_id > x.last_acked_txn_id {
                    x.last_acked_txn_id = txn_id;
                }
                x.last_heartbeat = now;
                let lag = max_txn_id.saturating_sub(x.last_acked_txn_id);
                if lag == 0 {
                    x.state = ReplicaState::Synced;
                } else if lag > self.config.max_lag_entries {
                    x.state = ReplicaState::Disconnected;
                } else {
                    x.state = ReplicaState::Lagging(lag);
                }
                self.put(x);
            },
            None => {},
        }
    }

    /// Get replication lag for a replica.
    ///
    /// Returns `None` if the replica is not registered. Lag is
    /// `(highest known txn_id) - (replica's last_acked_txn_id)`, saturating at 0.
    pub fn replication_lag(&self, replica_id: &str) -> (r: Option<u64>)
        requires
            self.wf(),
        ensures
            r is Some <==> self.replicas().contains_key(replica_id@),
            r matches Some(l) ==> l == self.lag_of(self.replicas()[replica_id@]),
    {
        let id = owned(replica_id);
        match self.find(&id) {
            Some(i) => {
                let max_txn_id = self.max_txn_id();
                Some(max_txn_id.saturating_sub(self.replicas[i].last_acked_txn_id))
            },
            None => None,
        }
    }

    /// Get state of all replicas, one pair per replica.
    pub fn replica_states(&self) -> (r: Vec<(String, ReplicaState)>)
        requires
            self.wf(),
        ensures
            r@.map_values(|p: (String, ReplicaState)| p.0@).no_duplicates(),
            forall|j: int|
                0 <= j < r.len() ==> #[trigger] self.replicas().contains_key(r@[j].0@)
                    && self.replicas()[r@[j].0@].state == r@[j].1,
            forall|k: Seq<char>| #[trigger]
                self.replicas().contains_key(k) ==> r@.map_values(|p: (String, ReplicaState)| p.0@).contains(k),
    {
        let ghost s = replica_views(self.replicas@);
        proof {
            lemma_keyed_map_index(s, replica_key());
        }
        let mut out: Vec<(String, ReplicaState)> = Vec::new();
        let n = self.replicas.len();
        let mut i: usize = 0;
        while i < n
            invariant
                n == self.replicas.len(),
                i <= n,
                s == replica_views(self.replicas@),
                unique_keys(s, replica_key()),
                forall|j: int| 0 <= j < n ==> #[trigger] self.replicas()[s[j].node_id] == s[j],
                forall|k: Seq<char>| #[trigger] self.replicas().contains_key(k) <==> has_key(s, replica_key(), k),
                out.len() == i,
                forall|j: int| 0 <= j < i ==> #[trigger] out@[j].0@ == s[j].node_id && out@[j].1 == s[j].state,
            decreases n - i,
        {
            out.push((self.replicas[i].node_id.clone(), self.replicas[i].state));
            i = i + 1;
        }
        proof {
            let ids = out@.map_values(|p: (String, ReplicaState)| p.0@);
            assert forall|a: int, b: int| 0 <= a < ids.len() && 0 <= b < ids.len() && a != b implies ids[a] != ids[b] by {
                if a < b {
                    assert(replica_key()(s[a]) != replica_key()(s[b]));
                } else {
                    assert(replica_key()(s[b]) != replica_key()(s[a]));
                }
            }
            assert forall|j: int|
                0 <= j < out.len() implies #[trigger] self.replicas().contains_key(out@[j].0@)
                    && self.replicas()[out@[j].0@].state == out@[j].1 by {
                assert(has_key(s, replica_key(), s[j].node_id));
            }
            assert forall|k: Seq<char>| #[trigger] self.replicas().contains_key(k) implies ids.contains(k) by {
                let j = choose|j: int| 0 <= j < s.len() && replica_key()(#[trigger] s[j]) == k;
                assert(ids[j] == k);
            }
        }
        out
    }

    /// Clean up acknowledged entries.
    ///
    /// Removes all pending entries whose `txn_id` is at most the smallest
    /// acknowledged id over all replicas. If no replicas exist, this is a
    /// no-op.
    pub fn trim_acked(&mut self)
        requires
            old(self).wf(),
        ensures
            final(self).wf(),
            final(self).replicas() == old(self).replicas(),
            old(self).replicas().dom().len() == 0 ==> final(self).pending() == old(self).pending(),
            old(self).replicas().dom().len() > 0 ==> exists|m: u64| #[trigger] is_ack_floor(old(self).replicas(), m)
                && final(self).pending() == old(self).pending().filter(newer_than(m)),
            final(self).shard_id_spec() == old(self).shard_id_spec(),
            final(self).config_spec() == old(self).config_spec(),
    {
        let ghost s = replica_views(self.replicas@);
        proof {
            lemma_keyed_map_index(s, replica_key());
            lemma_keyed_len(s, replica_key());
        }
        let n = self.replicas.len();
        if n == 0 {
            return;
        }
        let mut min_acked: u64 = 0;
        if n > 0 {
            min_acked = self.replicas[0].last_acked_txn_id;
            assert(s[0] == self.replicas@[0]@);
            assert(s[0].last_acked_txn_id == min_acked);
            let mut i: usize = 1;
            while i < n
                invariant
                    n == self.replicas.len(),
                    1 <= i <= n,
                    s == replica_views(self.replicas@),
                    exists|j: int| 0 <= j < i && #[trigger] s[j].last_acked_txn_id == min_acked,
                    forall|j: int| 0 <= j < i ==> #[trigger] s[j].last_acked_txn_id >= min_acked,
                decreases n - i,
            {
                assert(s[i as int] == self.replicas@[i as int]@);
                if self.replicas[i].last_acked_txn_id < min_acked {
                    min_acked = self.replicas[i].last_acked_txn_id;
                    assert(s[i as int].last_acked_txn_id == min_acked);
                }
                i = i + 1;
            }
            proof {
                let j = choose|j: int| 0 <= j < n && #[trigger] s[j].last_acked_txn_id == min_acked;
                assert(has_key(s, replica_key(), s[j].node_id));
                assert(self.replicas().contains_key(s[j].node_id));
                assert forall|k: Seq<char>| #[trigger] self.replicas().contains_key(k) implies self.replicas()[k].last_acked_txn_id >= min_acked by {
                    let a = choose|a: int| 0 <= a < s.len() && replica_key()(#[trigger] s[a]) == k;
                }
            }
        }
        proof {
            assert(is_ack_floor(self.replicas(), min_acked));
        }
        let kept = copy_newer(&self.pending_entries, min_acked);
        self.pending_entries = kept;
    }
}

} // verus!
