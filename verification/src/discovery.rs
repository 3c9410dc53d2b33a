//! In-memory cluster membership: registration, heartbeats and status
//! transitions of nodes.

use vstd::prelude::*;
use crate::error::Error;
use crate::keyed::{
    filter_map, has_key, keyed_map, lemma_filter_step, lemma_keyed_len, lemma_keyed_map_index,
    lemma_keyed_push, lemma_keyed_remove, lemma_keyed_update, unique_keys,
};
use crate::text::{string_views, decimal, decimal_string, owned, parse_u128, parse_u128_spec, push_str};

verus! {

/// Node status.
#[derive(Debug, Clone, Copy, PartialEq, Eq, Structural)]
pub enum NodeStatus {
    Active,
    /// Heartbeat missed, not yet confirmed dead.
    Suspect,
    Dead,
}

/// Cluster node information.
#[derive(Debug, Clone)]
pub struct NodeInfo {
    pub node_id: String,
    pub addr: String,
    pub status: NodeStatus,
    /// Epoch milliseconds of the last heartbeat, as decimal text.
    pub last_heartbeat: String,
    pub shards: Vec<u64>,
}

/// The value of a [`NodeInfo`].
pub struct NodeInfoView {
    pub node_id: Seq<char>,
    pub addr: Seq<char>,
    pub status: NodeStatus,
    pub last_heartbeat: Seq<char>,
    pub shards: Seq<u64>,
}

impl View for NodeInfo {
    type V = NodeInfoView;

    open spec fn view(&self) -> NodeInfoView {
        NodeInfoView {
            node_id: self.node_id@,
            addr: self.addr@,
            status: self.status,
            last_heartbeat: self.last_heartbeat@,
            shards: self.shards@,
        }
    }
}

/// The key of a node record: its id.
pub open spec fn node_key() -> spec_fn(NodeInfoView) -> Seq<char> {
    |v: NodeInfoView| v.node_id
}

/// The values of a sequence of node records.
pub open spec fn node_views(s: Seq<NodeInfo>) -> Seq<NodeInfoView> {
    s.map_values(|n: NodeInfo| n@)
}

/// The record is in `Active` status.
pub open spec fn is_active() -> spec_fn(NodeInfoView) -> bool {
    |v: NodeInfoView| v.status == NodeStatus::Active
}

/// `s` is the decimal text of some epoch-milliseconds value.
pub open spec fn is_epoch_millis_text(s: Seq<char>) -> bool {
    exists|ms: u128| s == decimal(ms as nat)
}

/// The current wall-clock time in milliseconds since the Unix epoch
/// (`SystemTime::now().duration_since(UNIX_EPOCH)`, 0 when the clock reads
/// before the epoch). Nothing is promised of the value: it is the clock's.
#[verifier::external_body]
fn clock_epoch_millis() -> u128 {
    std::time::SystemTime::now().duration_since(std::time::UNIX_EPOCH).unwrap_or_default().as_millis()
}

/// The current wall-clock time in milliseconds since the Unix epoch, as
/// the clock reads it (0 when it reads before the epoch). Every time this
/// registry stamps or checks is such a reading.
pub fn epoch_millis_now() -> (r: u128) {
    clock_epoch_millis()
}

/// `s` is the decimal text of a reading of the clock in epoch milliseconds,
/// a value `epoch_millis_now` can return.
pub open spec fn clock_stamp(s: Seq<char>) -> bool {
    exists|ms: u128| #[trigger] call_ensures(epoch_millis_now, (), ms) && s == decimal(ms as nat)
}

/// The decimal text of an epoch-milliseconds value.
pub fn epoch_millis_text(ms: u128) -> (r: String)
    ensures
        r@ == decimal(ms as nat),
{
    decimal_string(ms)
}

/// Returns the current time as a decimal epoch-milliseconds string.
pub fn now_epoch_millis() -> (r: String)
    ensures
        is_epoch_millis_text(r@),
        clock_stamp(r@),
{
    let ms = epoch_millis_now();
    epoch_millis_text(ms)
}

/// Parse an epoch-milliseconds string, returning `None` on failure.
pub fn parse_epoch_millis(s: &str) -> (r: Option<u128>)
    ensures
        r == parse_u128_spec(s@),
{
    parse_u128(s)
}

impl NodeInfo {
    /// Create a new `NodeInfo` with the current time as heartbeat.
    pub fn new(node_id: &str, addr: &str, shards: Vec<u64>) -> (r: Self)
        ensures
            r@.node_id == node_id@,
            r@.addr == addr@,
            r@.status == NodeStatus::Active,
            r@.shards == shards@,
            is_epoch_millis_text(r@.last_heartbeat),
            clock_stamp(r@.last_heartbeat),
    {
        NodeInfo {
            node_id: owned(node_id),
            addr: owned(addr),
            status: NodeStatus::Active,
            last_heartbeat: now_epoch_millis(),
            shards,
        }
    }

    /// A copy of this record.
    pub fn duplicate(&self) -> (r: Self)
        ensures
            r@ == self@,
    {
        let shards = self.shards.clone();
        proof {
            assert(shards@ =~= self.shards@);
        }
        NodeInfo {
            node_id: self.node_id.clone(),
            addr: self.addr.clone(),
            status: self.status,
            last_heartbeat: self.last_heartbeat.clone(),
            shards,
        }
    }
}

/// The message of the conflict reported when `id` is registered again at
/// another address than `addr`.
pub open spec fn conflict_message(id: Seq<char>, addr: Seq<char>) -> Seq<char> {
    "node "@ + id + " already registered at "@ + addr
}

/// The message naming an unknown node.
pub open spec fn unknown_node_message(id: Seq<char>) -> Seq<char> {
    "node "@ + id
}

/// A node has missed its heartbeat at time `now`: it is `Active` and the
/// milliseconds elapsed since its last heartbeat (0 for text that does not
/// parse, saturating at 0, and read modulo 2^64) exceed the timeout.
pub open spec fn heartbeat_expired(v: NodeInfoView, now: u128, timeout_secs: u64) -> bool {
    let last: u128 = match parse_u128_spec(v.last_heartbeat) {
        Some(ms) => ms,
        None => 0,
    };
    let elapsed: u128 = if now >= last { (now - last) as u128 } else { 0 };
    &&& v.status == NodeStatus::Active
    &&& (elapsed as u64) as int > timeout_secs as int * 1000
}

/// `after` and `ids` are what checking heartbeats at time `now` makes of the
/// registry `before`: every node whose heartbeat expired becomes `Suspect`,
/// the others are unchanged, and `ids` lists the expired nodes once each.
pub open spec fn heartbeats_checked(
    before: Map<Seq<char>, NodeInfoView>,
    timeout_secs: u64,
    now: u128,
    after: Map<Seq<char>, NodeInfoView>,
    ids: Seq<Seq<char>>,
) -> bool {
    &&& after == Map::new(
        |k: Seq<char>| before.contains_key(k),
        |k: Seq<char>|
            if heartbeat_expired(before[k], now, timeout_secs) {
                as_suspect(before[k])
            } else {
                before[k]
            },
    )
    &&& ids.no_duplicates()
    &&& forall|k: Seq<char>|
        #[trigger] ids.contains(k) <==> (before.contains_key(k) && heartbeat_expired(
            before[k],
            now,
            timeout_secs,
        ))
}

/// The record with its status set to `Suspect`.
pub open spec fn as_suspect(v: NodeInfoView) -> NodeInfoView {
    NodeInfoView { status: NodeStatus::Suspect, ..v }
}

/// In-memory node registry for cluster membership.
///
/// Tracks node state including heartbeats, status transitions, and
/// suspect marking on heartbeat timeout. Node ids never repeat.
pub struct NodeRegistry {
    nodes: Vec<NodeInfo>,
    heartbeat_timeout_secs: u64,
}

impl View for NodeRegistry {
    type V = Map<Seq<char>, NodeInfoView>;

    closed spec fn view(&self) -> Map<Seq<char>, NodeInfoView> {
        keyed_map(node_views(self.nodes@), node_key())
    }
}

impl NodeRegistry {
    /// The registry is well formed: no two records share a node id.
    pub closed spec fn wf(&self) -> bool {
        unique_keys(node_views(self.nodes@), node_key())
    }

    /// The heartbeat timeout, in seconds.
    pub closed spec fn timeout_secs(&self) -> u64 {
        self.heartbeat_timeout_secs
    }

    /// Create a new `NodeRegistry` with the given heartbeat timeout in seconds.
    pub fn new(heartbeat_timeout_secs: u64) -> (r: Self)
        ensures
            r.wf(),
            r@ == Map::<Seq<char>, NodeInfoView>::empty(),
            r.timeout_secs() == heartbeat_timeout_secs,
    {
        let r = NodeRegistry { nodes: Vec::new(), heartbeat_timeout_secs };
        proof {
            assert(node_views(r.nodes@) =~= Seq::<NodeInfoView>::empty());
        }
        r
    }

    /// The position of the record of `node_id`, if any.
    fn find(&self, node_id: &String) -> (r: Option<usize>)
        requires
            self.wf(),
        ensures
            match r {
                Some(i) => i < self.nodes.len() && self.nodes@[i as int].node_id@ == node_id@,
                None => !self@.contains_key(node_id@),
            },
            r is Some <==> self@.contains_key(node_id@),
            r matches Some(i) ==> self@[node_id@] == self.nodes@[i as int]@,
    {
        proof {
            lemma_keyed_map_index(node_views(self.nodes@), node_key());
        }
        let n = self.nodes.len();
        let mut i: usize = 0;
        while i < n
            invariant
                n == self.nodes.len(),
                i <= n,
                self.wf(),
                forall|j: int| 0 <= j < i ==> self.nodes@[j].node_id@ != node_id@,
            decreases n - i,
        {
            if self.nodes[i].node_id == *node_id {
                proof {
                    assert(node_views(self.nodes@)[i as int] == self.nodes@[i as int]@);
                    lemma_keyed_map_index(node_views(self.nodes@), node_key());
                    assert(has_key(node_views(self.nodes@), node_key(), node_id@));
                }
                return Some(i);
            }
            i = i + 1;
        }
        proof {
            if has_key(node_views(self.nodes@), node_key(), node_id@) {
                let j = choose|j: int|
                    0 <= j < node_views(self.nodes@).len() && node_key()(
                        #[trigger] node_views(self.nodes@)[j],
                    ) == node_id@;
                assert(node_views(self.nodes@)[j] == self.nodes@[j]@);
            }
        }
        None
    }

    /// Replace the record at position `i` by `info`, which has the same id.
    fn replace_at(&mut self, i: usize, info: NodeInfo)
        requires
            old(self).wf(),
            i < old(self).nodes.len(),
            info@.node_id == old(self).nodes@[i as int]@.node_id,
        ensures
            final(self).wf(),
            final(self)@ == old(self)@.insert(info@.node_id, info@),
            final(self).heartbeat_timeout_secs == old(self).heartbeat_timeout_secs,
    {
        let ghost v = info@;
        let ghost s = node_views(self.nodes@);
        self.nodes.set(i, info);
        proof {
            assert(node_views(self.nodes@) =~= s.update(i as int, v));
            lemma_keyed_update(s, node_key(), i as int, v);
        }
    }

    /// Register or update a node.
    ///
    /// Returns `Err(NodeConflict)` if a node with the same ID is already
    /// registered with a different address. If the same node re-registers
    /// (matching node_id AND addr), the registration is updated.
    pub fn register(&mut self, info: NodeInfo) -> (r: Result<(), Error>)
        requires
            old(self).wf(),
        ensures
            final(self).wf(),
            final(self).timeout_secs() == old(self).timeout_secs(),
            ({
                let id = info@.node_id;
                if old(self)@.contains_key(id) && old(self)@[id].addr != info@.addr {
                    &&& r matches Err(Error::NodeConflict(m)) && m@ == conflict_message(
                        id,
                        old(self)@[id].addr,
                    )
                    &&& final(self)@ == old(self)@
                } else {
                    &&& r is Ok
                    &&& final(self)@ == old(self)@.insert(id, info@)
                }
            }),
    {
        match self.find(&info.node_id) {
            Some(i) => {
                if self.nodes[i].addr != info.addr {
                    let mut m = owned("node ");
                    push_str(&mut m, info.node_id.as_str());
                    push_str(&mut m, " already registered at ");
                    push_str(&mut m, self.nodes[i].addr.as_str());
                    return Err(Error::NodeConflict(m));
                }
                self.replace_at(i, info);
                Ok(())
            },
            None => {
                let ghost v = info@;
                let ghost s = node_views(self.nodes@);
                proof {
                    lemma_keyed_map_index(s, node_key());
                }
                self.nodes.push(info);
                proof {
                    assert(node_views(self.nodes@) =~= s.push(v));
                    lemma_keyed_push(s, node_key(), v);
                }
                Ok(())
            },
        }
    }

    /// Record a heartbeat from a node, stamped with the given epoch-millis text.
    ///
    /// Sets the node's timestamp and resets its status to `Active`.
    /// Returns `Err(NotFound)` if the node is not registered.
    pub fn record_heartbeat(&mut self, node_id: &str, stamp: String) -> (r: Result<(), Error>)
        requires
            old(self).wf(),
        ensures
            final(self).wf(),
            final(self).timeout_secs() == old(self).timeout_secs(),
            old(self)@.contains_key(node_id@) ==> r is Ok && final(self)@ == old(self)@.insert(
                node_id@,
                NodeInfoView {
                    status: NodeStatus::Active,
                    last_heartbeat: stamp@,
                    ..old(self)@[node_id@]
                },
            ),
            !old(self)@.contains_key(node_id@) ==> (r matches Err(Error::NotFound(m)) && m@
                == unknown_node_message(node_id@) && final(self)@ == old(self)@),
    {
        let id = owned(node_id);
        match self.find(&id) {
            Some(i) => {
                let mut n = self.nodes[i].duplicate();
                n.last_heartbeat = stamp;
                n.status = NodeStatus::Active;
                self.replace_at(i, n);
                proof {
                    assert(final(self)@ =~= old(self)@.insert(
                        node_id@,
                        NodeInfoView {
                            status: NodeStatus::Active,
                            last_heartbeat: stamp@,
                            ..old(self)@[node_id@]
                        },
                    ));
                }
                Ok(())
            },
            None => {
                let mut m = owned("node ");
                push_str(&mut m, node_id);
                Err(Error::NotFound(m))
            },
        }
    }

    /// Record a heartbeat from a node.
    ///
    /// Updates the node's timestamp to the current time and resets its status
    /// to `Active`. Returns `Err(NotFound)` if the node is not registered.
    pub fn heartbeat(&mut self, node_id: &str) -> (r: Result<(), Error>)
        requires
            old(self).wf(),
        ensures
            final(self).wf(),
            final(self).timeout_secs() == old(self).timeout_secs(),
            old(self)@.contains_key(node_id@) ==> r is Ok && final(self)@.dom() == old(self)@.dom()
                && (forall|k: Seq<char>| #[trigger]
                    final(self)@.contains_key(k) && k != node_id@ ==> final(self)@[k] == old(
                    self,
                )@[k]) && ({
                    let v = final(self)@[node_id@];
                    let o = old(self)@[node_id@];
                    &&& v.status == NodeStatus::Active
                    &&& is_epoch_millis_text(v.last_heartbeat)
                    &&& clock_stamp(v.last_heartbeat)
                    &&& v.node_id == o.node_id && v.addr == o.addr && v.shards == o.shards
                }),
            !old(self)@.contains_key(node_id@) ==> (r matches Err(Error::NotFound(m)) && m@
                == unknown_node_message(node_id@) && final(self)@ == old(self)@),
    {
        let stamp = now_epoch_millis();
        self.record_heartbeat(node_id, stamp)
    }

    /// Mark a node as dead.
    ///
    /// Returns `Err(NotFound)` if the node is not registered.
    pub fn mark_dead(&mut self, node_id: &str) -> (r: Result<(), Error>)
        requires
            old(self).wf(),
        ensures
            final(self).wf(),
            final(self).timeout_secs() == old(self).timeout_secs(),
            old(self)@.contains_key(node_id@) ==> r is Ok && final(self)@ == old(self)@.insert(
                node_id@,
                NodeInfoView { status: NodeStatus::Dead, ..old(self)@[node_id@] },
            ),
            !old(self)@.contains_key(node_id@) ==> (r matches Err(Error::NotFound(m)) && m@
                == unknown_node_message(node_id@) && final(self)@ == old(self)@),
    {
        let id = owned(node_id);
        match self.find(&id) {
            Some(i) => {
                let mut n = self.nodes[i].duplicate();
                n.status = NodeStatus::Dead;
                self.replace_at(i, n);
                proof {
                    assert(final(self)@ =~= old(self)@.insert(
                        node_id@,
                        NodeInfoView { status: NodeStatus::Dead, ..old(self)@[node_id@] },
                    ));
                }
                Ok(())
            },
            None => {
                let mut m = owned("node ");
                push_str(&mut m, node_id);
                Err(Error::NotFound(m))
            },
        }
    }

    /// List all active nodes.
    pub fn active_nodes(&self) -> (r: Vec<NodeInfo>)
        requires
            self.wf(),
        ensures
            unique_keys(node_views(r@), node_key()),
            keyed_map(node_views(r@), node_key()) == filter_map(self@, is_active()),
    {
        self.select(true)
    }

    /// The records, all of them or only the active ones.
    fn select(&self, only_active: bool) -> (r: Vec<NodeInfo>)
        requires
            self.wf(),
        ensures
            unique_keys(node_views(r@), node_key()),
            only_active ==> keyed_map(node_views(r@), node_key()) == filter_map(
                self@,
                is_active(),
            ),
            !only_active ==> keyed_map(node_views(r@), node_key()) == self@,
    {
        let ghost p: spec_fn(NodeInfoView) -> bool = if only_active {
            is_active()
        } else {
            |v: NodeInfoView| true
        };
        let ghost s = node_views(self.nodes@);
        let mut out: Vec<NodeInfo> = Vec::new();
        let n = self.nodes.len();
        let mut i: usize = 0;
        proof {
            assert(s.take(0) =~= Seq::<NodeInfoView>::empty());
            assert(node_views(out@) =~= Seq::<NodeInfoView>::empty());
            assert(keyed_map(node_views(out@), node_key()) =~= filter_map(
                keyed_map(s.take(0), node_key()),
                p,
            ));
        }
        while i < n
            invariant
                n == self.nodes.len(),
                i <= n,
                self.wf(),
                s == node_views(self.nodes@),
                p == (if only_active {
                    is_active()
                } else {
                    |v: NodeInfoView| true
                }),
                unique_keys(node_views(out@), node_key()),
                keyed_map(node_views(out@), node_key()) == filter_map(
                    keyed_map(s.take(i as int), node_key()),
                    p,
                ),
            decreases n - i,
        {
            proof {
                lemma_filter_step(s, node_key(), p, node_views(out@), i as int);
            }
            if !only_active || self.nodes[i].status == NodeStatus::Active {
                let x = self.nodes[i].duplicate();
                let ghost before = node_views(out@);
                out.push(x);
                proof {
                    assert(node_views(out@) =~= before.push(s[i as int]));
                }
            }
            i = i + 1;
        }
        proof {
            assert(s.take(n as int) =~= s);
            if !only_active {
                assert(filter_map(self@, p) =~= self@);
            }
        }
        out
    }

    /// Get info for a specific node.
    pub fn get_node(&self, node_id: &str) -> (r: Option<NodeInfo>)
        requires
            self.wf(),
        ensures
            r is Some <==> self@.contains_key(node_id@),
            r matches Some(n) ==> n@ == self@[node_id@],
    {
        let id = owned(node_id);
        match self.find(&id) {
            Some(i) => Some(self.nodes[i].duplicate()),
            None => None,
        }
    }

    /// Remove a node from the registry.
    pub fn remove_node(&mut self, node_id: &str)
        requires
            old(self).wf(),
        ensures
            final(self).wf(),
            final(self).timeout_secs() == old(self).timeout_secs(),
            final(self)@ == old(self)@.remove(node_id@),
    {
        let id = owned(node_id);
        match self.find(&id) {
            Some(i) => {
                let ghost s = node_views(self.nodes@);
                self.nodes.remove(i);
                proof {
                    assert(node_views(self.nodes@) =~= s.remove(i as int));
                    lemma_keyed_remove(s, node_key(), i as int);
                }
            },
            None => {
                proof {
                    assert(old(self)@.remove(node_id@) =~= old(self)@);
                }
            },
        }
    }

    /// Mark suspect, as of time `now_millis`, every node whose heartbeat has
    /// expired, and return their ids.
    pub fn check_heartbeats_at(&mut self, now_millis: u128) -> (r: Vec<String>)
        requires
            old(self).wf(),
        ensures
            final(self).wf(),
            final(self).timeout_secs() == old(self).timeout_secs(),
            heartbeats_checked(old(self)@, old(self).timeout_secs(), now_millis, final(self)@, string_views(r@)),
    {
        let ghost s0 = node_views(self.nodes@);
        let ghost m0 = self@;
        let ghost t = self.heartbeat_timeout_secs;
        proof {
            lemma_keyed_map_index(s0, node_key());
        }
        let mut out: Vec<String> = Vec::new();
        let n = self.nodes.len();
        let mut i: usize = 0;
        while i < n
            invariant
                n == self.nodes.len(),
                i <= n,
                s0.len() == n,
                unique_keys(s0, node_key()),
                m0 == keyed_map(s0, node_key()),
                forall|k: Seq<char>| #[trigger] m0.contains_key(k) <==> has_key(s0, node_key(), k),
                forall|j: int| 0 <= j < n ==> #[trigger] m0[s0[j].node_id] == s0[j],
                t == self.heartbeat_timeout_secs,
                forall|j: int|
                    #![trigger self.nodes@[j]]
                    0 <= j < n ==> self.nodes@[j]@ == (if j < i && heartbeat_expired(
                        s0[j],
                        now_millis,
                        t,
                    ) {
                        as_suspect(s0[j])
                    } else {
                        s0[j]
                    }),
                string_views(out@).no_duplicates(),
                forall|k: Seq<char>|
                    #[trigger] string_views(out@).contains(k) <==> exists|j: int|
                        0 <= j < i && #[trigger] s0[j].node_id == k && heartbeat_expired(
                            s0[j],
                            now_millis,
                            t,
                        ),
            decreases n - i,
        {
            assert(self.nodes@[i as int]@ == s0[i as int]);
            let expired = if self.nodes[i].status == NodeStatus::Active {
                let last = match parse_u128(self.nodes[i].last_heartbeat.as_str()) {
                    Some(ms) => ms,
                    None => 0,
                };
                let elapsed = now_millis.saturating_sub(last);
                let timeout = self.heartbeat_timeout_secs as u128 * 1000;
                #[verifier::truncate]
                let low = elapsed as u64;
                low as u128 > timeout
            } else {
                false
            };
            assert(expired == heartbeat_expired(s0[i as int], now_millis, t));
            let ghost out_before = string_views(out@);
            if expired {
                let mut x = self.nodes[i].duplicate();
                x.status = NodeStatus::Suspect;
                let ghost before = string_views(out@);
                out.push(self.nodes[i].node_id.clone());
                proof {
                    assert(string_views(out@) =~= before.push(s0[i as int].node_id));
                    assert(heartbeat_expired(s0[i as int], now_millis, t));
                    assert forall|j: int| 0 <= j < i implies #[trigger] s0[j].node_id != s0[i as int].node_id by {
                        assert(node_key()(s0[j]) != node_key()(s0[i as int]));
                    }
                    let ids = string_views(out@);
                    assert(!before.contains(s0[i as int].node_id)) by {
                        if before.contains(s0[i as int].node_id) {
                            let j = choose|j: int|
                                0 <= j < i && #[trigger] s0[j].node_id == s0[i as int].node_id
                                    && heartbeat_expired(s0[j], now_millis, t);
                            assert(s0[j].node_id != s0[i as int].node_id);
                        }
                    }
                    assert forall|a: int, b: int|
                        0 <= a < ids.len() && 0 <= b < ids.len() && a != b implies #[trigger] ids[a]
                        != #[trigger] ids[b] by {
                        if b == before.len() {
                            assert(ids[a] == before[a]);
                            assert(before.contains(before[a]));
                        } else if a == before.len() {
                            assert(ids[b] == before[b]);
                            assert(before.contains(before[b]));
                        } else {
                            assert(ids[a] == before[a] && ids[b] == before[b]);
                        }
                    }
                }
                let ghost nodes_before = self.nodes@;
                self.nodes.set(i, x);
                proof {
                    assert forall|j: int| 0 <= j < n implies #[trigger] self.nodes@[j]@ == (if j < i
                        + 1 && heartbeat_expired(s0[j], now_millis, t) {
                        as_suspect(s0[j])
                    } else {
                        s0[j]
                    }) by {
                        if j != i {
                            assert(self.nodes@[j] == nodes_before[j]);
                        }
                    }
                }
            }
            proof {
                assert forall|k: Seq<char>|
                    #[trigger] string_views(out@).contains(k) <==> exists|j: int|
                        0 <= j < i + 1 && #[trigger] s0[j].node_id == k && heartbeat_expired(
                            s0[j],
                            now_millis,
                            t,
                        ) by {
                    if expired {
                        assert(string_views(out@) == out_before.push(s0[i as int].node_id));
                        if k == s0[i as int].node_id {
                            assert(string_views(out@)[out_before.len() as int] == k);
                        }
                        if out_before.contains(k) {
                            let a = choose|a: int| 0 <= a < out_before.len() && out_before[a] == k;
                            assert(string_views(out@)[a] == k);
                        }
                    } else {
                        assert(string_views(out@) == out_before);
                    }
                }
            }
            i = i + 1;
        }
        proof {
            let s1 = node_views(self.nodes@);
            assert forall|j: int| 0 <= j < n implies #[trigger] s1[j].node_id == s0[j].node_id by {
                assert(s1[j] == self.nodes@[j]@);
            }
            assert(unique_keys(s1, node_key())) by {
                assert forall|a: int, b: int| 0 <= a < b < s1.len() implies node_key()(#[trigger] s1[a])
                    != node_key()(#[trigger] s1[b]) by {
                    assert(s1[a].node_id == s0[a].node_id);
                    assert(s1[b].node_id == s0[b].node_id);
                    assert(node_key()(s0[a]) != node_key()(s0[b]));
                }
            }
            lemma_keyed_map_index(s1, node_key());
            let target = Map::new(
                |k: Seq<char>| m0.contains_key(k),
                |k: Seq<char>|
                    if heartbeat_expired(m0[k], now_millis, t) {
                        as_suspect(m0[k])
                    } else {
                        m0[k]
                    },
            );
            assert forall|k: Seq<char>| #[trigger] self@.contains_key(k) <==> target.contains_key(k) by {
                if has_key(s1, node_key(), k) {
                    let j = choose|j: int| 0 <= j < s1.len() && node_key()(#[trigger] s1[j]) == k;
                    assert(s0[j].node_id == k);
                    assert(has_key(s0, node_key(), k));
                }
                if has_key(s0, node_key(), k) {
                    let j = choose|j: int| 0 <= j < s0.len() && node_key()(#[trigger] s0[j]) == k;
                    assert(s1[j].node_id == k);
                    assert(has_key(s1, node_key(), k));
                }
            }
            assert forall|k: Seq<char>| #[trigger] self@.contains_key(k) implies self@[k] == target[k] by {
                let j = choose|j: int| 0 <= j < s1.len() && node_key()(#[trigger] s1[j]) == k;
                assert(self@[s1[j].node_id] == s1[j]);
                assert(m0[s0[j].node_id] == s0[j]);
                assert(s1[j] == self.nodes@[j]@);
            }
            assert(self@ =~= target);
            assert forall|k: Seq<char>|
                #[trigger] string_views(out@).contains(k) <==> (m0.contains_key(k)
                    && heartbeat_expired(m0[k], now_millis, t)) by {
                if m0.contains_key(k) && heartbeat_expired(m0[k], now_millis, t) {
                    let j = choose|j: int| 0 <= j < s0.len() && node_key()(#[trigger] s0[j]) == k;
                    assert(m0[s0[j].node_id] == s0[j]);
                }
            }
        }
        out
    }

    /// Check which nodes have timed out and mark them suspect.
    ///
    /// A node is considered timed out when its last heartbeat is older
    /// than the heartbeat timeout. Only `Active` nodes are marked. Returns the
    /// list of node IDs that were newly marked as suspect.
    pub fn check_heartbeats(&mut self) -> (r: Vec<String>)
        requires
            old(self).wf(),
        ensures
            final(self).wf(),
            final(self).timeout_secs() == old(self).timeout_secs(),
            exists|now: u128| #[trigger] heartbeats_checked(old(self)@, old(self).timeout_secs(), now, final(self)@, string_views(r@)),
            exists|now: u128| #[trigger] call_ensures(epoch_millis_now, (), now)
                && heartbeats_checked(old(self)@, old(self).timeout_secs(), now, final(self)@, string_views(r@)),
    {
        let now = epoch_millis_now();
        let r = self.check_heartbeats_at(now);
        proof {
            assert(heartbeats_checked(old(self)@, old(self).timeout_secs(), now, self@, string_views(r@)));
        }
        r
    }

    /// Number of registered nodes.
    pub fn len(&self) -> (r: usize)
        requires
            self.wf(),
        ensures
            r == self@.len(),
            self@.dom().finite(),
    {
        proof {
            lemma_keyed_len(node_views(self.nodes@), node_key());
            lemma_keyed_map_index(node_views(self.nodes@), node_key());
        }
        self.nodes.len()
    }

    /// Return all registered nodes regardless of status.
    pub fn all_nodes(&self) -> (r: Vec<NodeInfo>)
        requires
            self.wf(),
        ensures
            unique_keys(node_views(r@), node_key()),
            keyed_map(node_views(r@), node_key()) == self@,
    {
        self.select(false)
    }

    /// Return `true` if no nodes are registered.
    pub fn is_empty(&self) -> (r: bool)
        requires
            self.wf(),
        ensures
            r == (self@.len() == 0),
    {
        self.len() == 0
    }
}

} // verus!
