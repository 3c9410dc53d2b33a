//! Properties of the library that span several operations.

use vstd::prelude::*;
use crate::discovery::{
    clock_stamp, epoch_millis_now, as_suspect, conflict_message, heartbeat_expired, heartbeats_checked, is_epoch_millis_text,
    NodeInfoView, NodeStatus,
};
use crate::failover::{failover_outcome, led_by};
use crate::keyed::{filter_map, first_key, keyed_map, lemma_keyed_map_index};
use crate::leader_election::{is_elected, leader_timed_out, ElectionStateView, LeaderElection};
use crate::replication::{is_ack_floor, newer_than, state_after_ack, ReplicaInfoView, ReplicaState, ReplicationEntryView};
use crate::shard_manager::{with_replica, without_node, ShardAssignmentView};
use crate::text::{decimal, differs_from, lemma_decimal_parses, parse_u128_spec};
use crate::auth::{
    api_key_list, api_key_table, first_success, key_entries, key_entry, method_outcome_possible, tried_in_turn, AuthErrorView,
    AuthMethod, ClaimsView,
};
use crate::text::{first_index_of, is_white_space, split_on, split_once_spec, trim_spec};
use crate::merkle_tree::{built_from, ids_increasing, leaf_id, lemma_sound_count, MerkleNode};

verus! {

broadcast use vstd::seq_lib::group_filter_ensures;

/// Every heartbeat stamp the registry writes parses back to the time it
/// records, so heartbeat checks read the right time.
pub proof fn law_heartbeat_stamp_parses(stamp: Seq<char>)
    requires
        is_epoch_millis_text(stamp),
    ensures
        exists|ms: u128| stamp == decimal(ms as nat) && #[trigger] parse_u128_spec(stamp) == Some(ms),
{
    let ms = choose|ms: u128| stamp == decimal(ms as nat);
    lemma_decimal_parses(ms);
}

/// Every heartbeat stamp the registry takes from the clock parses back to
/// a reading of that clock in epoch milliseconds, the reading that heartbeat
/// checks compare against.
pub proof fn law_clock_stamp_is_clock_reading(stamp: Seq<char>)
    requires
        clock_stamp(stamp),
    ensures
        exists|ms: u128| #[trigger] call_ensures(epoch_millis_now, (), ms) && parse_u128_spec(stamp) == Some(ms),
{
    let ms = choose|ms: u128| #[trigger] call_ensures(epoch_millis_now, (), ms) && stamp == decimal(ms as nat);
    lemma_decimal_parses(ms);
}

/// A heartbeat check at time `now` (epoch milliseconds) reports an active
/// node whose heartbeat was stamped at `stamped` exactly when more than the
/// timeout has passed since, and then marks it `Suspect`; otherwise the
/// node stays `Active`. (Elapsed times beyond `u64::MAX` milliseconds wrap,
/// as the check counts them in 64 bits.)
pub proof fn law_check_reports_exactly_the_stale(
    before: Map<Seq<char>, NodeInfoView>,
    timeout_secs: u64,
    now: u128,
    after: Map<Seq<char>, NodeInfoView>,
    ids: Seq<Seq<char>>,
    k: Seq<char>,
    stamped: u128,
)
    requires
        heartbeats_checked(before, timeout_secs, now, after, ids),
        before.contains_key(k),
        before[k].status == NodeStatus::Active,
        before[k].last_heartbeat == decimal(stamped as nat),
        now - stamped <= u64::MAX,
    ensures
        ids.contains(k) <==> now - stamped > timeout_secs * 1000,
        after.contains_key(k),
        now - stamped > timeout_secs * 1000 ==> after[k].status == NodeStatus::Suspect,
        now - stamped <= timeout_secs * 1000 ==> after[k] == before[k] && after[k].status == NodeStatus::Active,
{
    lemma_decimal_parses(stamped);
    if now >= stamped {
        let e = (now - stamped) as u128;
        assert((e as u64) as int == e as int);
    } else {
        assert((0u128 as u64) == 0);
    }
}

/// After an acknowledgment leaves a replica `lag` entries behind, it is
/// `Synced` exactly when nothing is left, `Disconnected` exactly when more
/// than `max_lag` entries are left, and `Lagging(lag)` in between.
pub proof fn law_ack_state(lag: u64, max_lag: u64)
    ensures
        state_after_ack(lag, max_lag) == ReplicaState::Synced <==> lag == 0,
        state_after_ack(lag, max_lag) == ReplicaState::Disconnected <==> lag > max_lag,
        0 < lag <= max_lag ==> state_after_ack(lag, max_lag) == ReplicaState::Lagging(lag),
{
}

/// A node whose heartbeat was stamped at time `now` has not missed it at `now`.
pub proof fn law_fresh_heartbeat_not_expired(v: NodeInfoView, now: u128, timeout_secs: u64)
    requires
        v.last_heartbeat == decimal(now as nat),
    ensures
        !heartbeat_expired(v, now, timeout_secs),
{
    lemma_decimal_parses(now);
    assert((0u128 as u64) == 0);
}

/// A heartbeat check only ever marks `Active` nodes suspect: suspect and dead
/// nodes keep their record and are never reported.
pub proof fn law_check_spares_inactive(
    before: Map<Seq<char>, NodeInfoView>,
    timeout_secs: u64,
    now: u128,
    after: Map<Seq<char>, NodeInfoView>,
    ids: Seq<Seq<char>>,
    k: Seq<char>,
)
    requires
        heartbeats_checked(before, timeout_secs, now, after, ids),
        before.contains_key(k),
        before[k].status != NodeStatus::Active,
    ensures
        after.contains_key(k),
        after[k] == before[k],
        !ids.contains(k),
{
}

/// After a heartbeat check, every reported node is `Suspect` and every
/// registered node is still registered.
pub proof fn law_check_reports_suspects(
    before: Map<Seq<char>, NodeInfoView>,
    timeout_secs: u64,
    now: u128,
    after: Map<Seq<char>, NodeInfoView>,
    ids: Seq<Seq<char>>,
)
    requires
        heartbeats_checked(before, timeout_secs, now, after, ids),
    ensures
        after.dom() == before.dom(),
        forall|k: Seq<char>| #[trigger] ids.contains(k) ==> after.contains_key(k) && after[k].status == NodeStatus::Suspect,
{
    assert(after.dom() =~= before.dom());
}

/// A node that left can join again: once its record is removed, registering
/// it meets no conflict, whatever its address.
pub proof fn law_rejoin_after_leave(
    reg: Map<Seq<char>, NodeInfoView>,
    id: Seq<char>,
    addr: Seq<char>,
)
    ensures
        !(reg.remove(id).contains_key(id) && reg.remove(id)[id].addr != addr),
{
}

/// Registering a node and then reading it gives the registered record.
pub proof fn law_register_read_back(reg: Map<Seq<char>, NodeInfoView>, v: NodeInfoView)
    ensures
        reg.insert(v.node_id, v).contains_key(v.node_id),
        reg.insert(v.node_id, v)[v.node_id] == v,
{
}

/// The elected shards are exactly the led shards and the followed shards,
/// so their count is the sum of both counts.
pub proof fn law_elected_count_splits(e: LeaderElection)
    requires
        e.wf(),
    ensures
        filter_map(e.states(), |v: ElectionStateView| is_elected(v)).dom().len() == filter_map(
            e.states(),
            |v: ElectionStateView| v is Leader,
        ).dom().len() + filter_map(e.states(), |v: ElectionStateView| v is Follower).dom().len(),
{
    let st = e.states();
    let all = filter_map(st, |v: ElectionStateView| is_elected(v)).dom();
    let a = filter_map(st, |v: ElectionStateView| v is Leader).dom();
    let b = filter_map(st, |v: ElectionStateView| v is Follower).dom();
    e.lemma_states_finite();
    assert(a.subset_of(st.dom()));
    assert(b.subset_of(st.dom()));
    vstd::set_lib::lemma_len_subset(a, st.dom());
    vstd::set_lib::lemma_len_subset(b, st.dom());
    assert(a.disjoint(b));
    vstd::set_lib::lemma_set_disjoint_lens(a, b);
    assert(all =~= a + b);
}

/// Becoming a candidate and then winning makes this node the shard's
/// leader: the candidate state is one that `win_election` accepts, and the
/// state it then records is `Leader`.
pub proof fn law_candidate_then_win(states: Map<u64, ElectionStateView>, k: u64)
    ensures
        states.insert(k, ElectionStateView::Candidate).contains_key(k),
        states.insert(k, ElectionStateView::Candidate)[k] is Candidate,
        states.insert(k, ElectionStateView::Candidate).insert(k, ElectionStateView::Leader)[k] is Leader,
{
}

proof fn lemma_filter_newer_twice(p: Seq<ReplicationEntryView>, m: u64, a: u64)
    requires
        m <= a,
    ensures
        p.filter(newer_than(m)).filter(newer_than(a)) == p.filter(newer_than(a)),
    decreases p.len(),
{
    reveal_with_fuel(Seq::<_>::filter, 1);
    if p.len() > 0 {
        let q = p.drop_last();
        lemma_filter_newer_twice(q, m, a);
        let x = p.last();
        if x.txn_id > m {
            assert(p.filter(newer_than(m)) == q.filter(newer_than(m)).push(x));
            assert(p.filter(newer_than(m)).drop_last() =~= q.filter(newer_than(m)));
        }
    }
}

/// Trimming acknowledged entries never takes away an entry some replica
/// still needs: every replica's pending list is the same before and after.
pub proof fn law_trim_keeps_pending(
    pending: Seq<ReplicationEntryView>,
    reps: Map<Seq<char>, ReplicaInfoView>,
    m: u64,
    k: Seq<char>,
)
    requires
        is_ack_floor(reps, m),
        reps.contains_key(k),
    ensures
        pending.filter(newer_than(m)).filter(newer_than(reps[k].last_acked_txn_id))
            == pending.filter(newer_than(reps[k].last_acked_txn_id)),
{
    lemma_filter_newer_twice(pending, m, reps[k].last_acked_txn_id);
}

/// After a node is removed from the shard assignments it appears nowhere:
/// it leads no shard and replicates none.
pub proof fn law_removed_node_gone(m: Map<u64, ShardAssignmentView>, node: Seq<char>)
    ensures
        forall|k: u64| #[trigger] without_node(m, node).contains_key(k) ==> without_node(m, node)[k].leader
            != node && !without_node(m, node)[k].replicas.contains(node),
{
    assert forall|k: u64| #[trigger] without_node(m, node).contains_key(k) implies without_node(m, node)[k].leader
        != node && !without_node(m, node)[k].replicas.contains(node) by {
        let r = m[k].replicas.filter(differs_from(node));
        if r.contains(node) {
            let i = choose|i: int| 0 <= i < r.len() && r[i] == node;
            assert(differs_from(node)(r[i]));
        }
    }
}

/// Adding the same replica twice is the same as adding it once.
pub proof fn law_add_replica_idempotent(m: Map<u64, ShardAssignmentView>, k: u64, r: Seq<char>)
    ensures
        with_replica(with_replica(m, k, r), k, r) == with_replica(m, k, r),
{
    if m.contains_key(k) && !m[k].replicas.contains(r) {
        let m1 = with_replica(m, k, r);
        assert(m1[k].replicas[m1[k].replicas.len() - 1] == r);
        assert(m1[k].replicas.contains(r));
    }
}

/// A failover check makes this node the leader of every shard it promotes,
/// both in the election states and in the shard assignments, with a fresh
/// heartbeat, and leaves the other shards' states and assignments as they
/// were.
pub proof fn law_failover_promotes_to_self(
    e0: Map<u64, ElectionStateView>,
    h0: Map<u64, u128>,
    a0: Map<u64, ShardAssignmentView>,
    eligible: spec_fn(u64) -> bool,
    me: Seq<char>,
    timeout_ms: u64,
    now: u128,
    p: Seq<u64>,
    e1: Map<u64, ElectionStateView>,
    h1: Map<u64, u128>,
    a1: Map<u64, ShardAssignmentView>,
)
    requires
        failover_outcome(e0, h0, a0, eligible, me, timeout_ms, now, p, e1, h1, a1),
    ensures
        forall|k: u64| #[trigger] p.contains(k) ==> e1[k] is Leader && a1.contains_key(k) && a1[k].leader == me
            && h1.contains_key(k) && h1[k] == now,
        forall|k: u64| #[trigger] e0.contains_key(k) && !p.contains(k) ==> e1[k] == e0[k],
        forall|k: u64| #[trigger] a0.contains_key(k) && !p.contains(k) ==> a1[k] == a0[k],
{
}

/// A leader is dead once the election timeout passes without a heartbeat:
/// a failover check at `now` promotes an eligible follower of a shard whose
/// leader last sent a heartbeat at `last` exactly when more than the timeout
/// has passed since then, and always when the leader never sent one.
pub proof fn law_failover_promotes_dead_leaders(
    e0: Map<u64, ElectionStateView>,
    h0: Map<u64, u128>,
    a0: Map<u64, ShardAssignmentView>,
    eligible: spec_fn(u64) -> bool,
    me: Seq<char>,
    timeout_ms: u64,
    now: u128,
    p: Seq<u64>,
    e1: Map<u64, ElectionStateView>,
    h1: Map<u64, u128>,
    a1: Map<u64, ShardAssignmentView>,
    k: u64,
)
    requires
        failover_outcome(e0, h0, a0, eligible, me, timeout_ms, now, p, e1, h1, a1),
        e0.contains_key(k),
        e0[k] is Follower,
        eligible(k),
    ensures
        !h0.contains_key(k) ==> p.contains(k),
        h0.contains_key(k) ==> (p.contains(k) <==> now > h0[k] && now - h0[k] > timeout_ms as int * 1_000_000),
{
    assert(p.contains(k) <==> leader_timed_out(h0, k, now, timeout_ms));
}

/// A heartbeat recorded at `t` keeps the shard's leader alive until more
/// than the election timeout has passed since `t`, whatever was recorded
/// before; setting a leader without a heartbeat changes nothing of it.
pub proof fn law_heartbeat_keeps_leader_alive(h: Map<u64, u128>, k: u64, t: u128, now: u128, timeout_ms: u64)
    ensures
        leader_timed_out(h.insert(k, t), k, now, timeout_ms) <==> now - t > timeout_ms as int * 1_000_000,
        now <= t + timeout_ms as int * 1_000_000 ==> !leader_timed_out(h.insert(k, t), k, now, timeout_ms),
{
}

/// Trying a single authentication method in turn answers exactly what that
/// method answers.
pub proof fn law_single_method_answers_itself(
    m: AuthMethod,
    api_key: Option<Seq<char>>,
    authorization: Option<Seq<char>>,
    outs: Seq<Result<ClaimsView, AuthErrorView>>,
)
    requires
        tried_in_turn(seq![m], api_key, authorization, outs),
    ensures
        method_outcome_possible(m, api_key, authorization, first_success(outs)),
{
    assert(outs.len() == 1);
    assert(method_outcome_possible(seq![m][0], api_key, authorization, outs[0]));
}

/// When the first method tried accepts a request, the answer is its claims,
/// whatever the later methods would say.
pub proof fn law_first_success_wins(
    ms: Seq<AuthMethod>,
    api_key: Option<Seq<char>>,
    authorization: Option<Seq<char>>,
    outs: Seq<Result<ClaimsView, AuthErrorView>>,
)
    requires
        tried_in_turn(ms, api_key, authorization, outs),
        ms.len() > 0,
        outs.len() > 0,
        outs[0] is Ok,
    ensures
        first_success(outs) == outs[0],
        outs.len() == 1,
{
    if outs.len() > 1 {
        assert(outs[0] is Err);
    }
}

/// A key list of one entry `key:role` whose key and role hold no white
/// space, `,` or `:` grants the key its role.
pub proof fn law_single_key_entry(key: Seq<char>, role: Seq<char>)
    requires
        key.len() > 0,
        role.len() > 0,
        forall|i: int| 0 <= i < key.len() ==> !is_white_space(#[trigger] key[i]) && key[i] != ',' && key[i] != ':',
        forall|i: int| 0 <= i < role.len() ==> !is_white_space(#[trigger] role[i]) && role[i] != ',' && role[i] != ':',
    ensures
        api_key_table(key + seq![':'] + role) == map![key => ClaimsView { sub: key, role: role }],
{
    let s = key + seq![':'] + role;
    lemma_split_no_sep(s, ',');
    assert(split_on(s, ',') == seq![s]);
    assert(s[key.len() as int] == ':');
    assert(first_index_of(s, ':') == Some(key.len() as int)) by {
        let p = |k: int| 0 <= k < s.len() && s[k] == ':' && forall|j: int| 0 <= j < k ==> s[j] != ':';
        assert(p(key.len() as int)) by {
            assert forall|j: int| 0 <= j < key.len() implies s[j] != ':' by {
                assert(s[j] == key[j]);
            }
        }
        let k = choose|k: int| 0 <= k < s.len() && s[k] == ':' && forall|j: int| 0 <= j < k ==> s[j] != ':';
        assert(p(k));
        if k > key.len() {
            assert(s[key.len() as int] != ':');
        } else if k < key.len() {
            assert(s[k] == key[k]);
        }
    }
    assert(s.take(key.len() as int) =~= key);
    assert(s.skip(key.len() as int + 1) =~= role);
    lemma_no_white_space_trims(key);
    lemma_no_white_space_trims(role);
    let e = (key, ClaimsView { sub: key, role: role });
    assert(split_once_spec(s, ':') == Some((key, role)));
    assert(key_entry(s) == Some(e));
    assert(seq![s].drop_last() =~= Seq::<Seq<char>>::empty());
    assert(key_entries(Seq::<Seq<char>>::empty()) =~= Seq::<(Seq<char>, ClaimsView)>::empty());
    assert(key_entries(seq![s]) == key_entries(Seq::<Seq<char>>::empty()).push(e));
    assert(api_key_list(s) =~= seq![e]);
    lemma_keyed_map_index(seq![e], first_key());
    assert(keyed_map(seq![e], first_key()).contains_key(key));
    assert(keyed_map(seq![e], first_key()).dom() =~= set![key]) by {
        assert forall|k: Seq<char>| keyed_map(seq![e], first_key()).contains_key(k) implies k == key by {
            let j = choose|j: int| 0 <= j < seq![e].len() && first_key()(#[trigger] seq![e][j]) == k;
        }
    }
    assert(api_key_table(s) =~= map![key => ClaimsView { sub: key, role: role }]);
}

/// Building the Merkle tree does not depend on the order in which the
/// leaves are handed over: two trees built from the same leaves have the
/// same leaves in the same order, the same root hash and the same count.
pub proof fn law_tree_ignores_leaf_order<C>(
    ra: MerkleNode<C>,
    a: Seq<MerkleNode<C>>,
    rb: MerkleNode<C>,
    b: Seq<MerkleNode<C>>,
)
    requires
        built_from(ra, a),
        built_from(rb, b),
        forall|x: MerkleNode<C>| a.contains(x) <==> b.contains(x),
    ensures
        ra.leaves() == rb.leaves(),
        ra.hash_spec()@ == rb.hash_spec()@,
        ra.count_spec() == rb.count_spec(),
{
    assert forall|x: MerkleNode<C>| ra.leaves().contains(x) <==> rb.leaves().contains(x) by {
        assert(ra.leaves().contains(x) <==> a.contains(x));
        assert(rb.leaves().contains(x) <==> b.contains(x));
    }
    lemma_sorted_leaves_unique(ra.leaves(), rb.leaves());
    lemma_sound_count(ra);
    lemma_sound_count(rb);
}

/// Two sequences of leaves with increasing cluster ids that hold the same
/// leaves are the same sequence.
proof fn lemma_sorted_leaves_unique<C>(s: Seq<MerkleNode<C>>, t: Seq<MerkleNode<C>>)
    requires
        ids_increasing(s),
        ids_increasing(t),
        forall|x: MerkleNode<C>| s.contains(x) <==> t.contains(x),
    ensures
        s == t,
    decreases s.len(),
{
    if s.len() == 0 {
        if t.len() > 0 {
            assert(t.contains(t[0]));
        }
        assert(s =~= t);
    } else {
        assert(s.contains(s[0]));
        assert(t.len() > 0);
        assert(t.contains(t[0]));
        let j = choose|j: int| 0 <= j < t.len() && t[j] == s[0];
        let i = choose|i: int| 0 <= i < s.len() && s[i] == t[0];
        if i > 0 {
            assert(leaf_id(s[0]) < leaf_id(s[i]));
        }
        if j > 0 {
            assert(leaf_id(t[0]) < leaf_id(t[j]));
        }
        assert(s[0] == t[0]);
        let s1 = s.drop_first();
        let t1 = t.drop_first();
        assert forall|x: MerkleNode<C>| s1.contains(x) <==> t1.contains(x) by {
            if s1.contains(x) {
                let k = choose|k: int| 0 <= k < s1.len() && s1[k] == x;
                assert(s[k + 1] == x);
                assert(leaf_id(s[0]) < leaf_id(s[k + 1]));
                assert(s.contains(x));
                let m = choose|m: int| 0 <= m < t.len() && t[m] == x;
                assert(m != 0);
                assert(t1[m - 1] == x);
            }
            if t1.contains(x) {
                let k = choose|k: int| 0 <= k < t1.len() && t1[k] == x;
                assert(t[k + 1] == x);
                assert(leaf_id(t[0]) < leaf_id(t[k + 1]));
                assert(t.contains(x));
                let m = choose|m: int| 0 <= m < s.len() && s[m] == x;
                assert(m != 0);
                assert(s1[m - 1] == x);
            }
        }
        assert(ids_increasing(s1)) by {
            assert forall|a: int| 0 <= a < s1.len() implies #[trigger] s1[a] is Leaf by {
                assert(s1[a] == s[a + 1]);
            }
            assert forall|a: int, c: int| 0 <= a < c < s1.len() implies leaf_id(#[trigger] s1[a]) < leaf_id(#[trigger] s1[c]) by {
                assert(s1[a] == s[a + 1] && s1[c] == s[c + 1]);
            }
        }
        assert(ids_increasing(t1)) by {
            assert forall|a: int| 0 <= a < t1.len() implies #[trigger] t1[a] is Leaf by {
                assert(t1[a] == t[a + 1]);
            }
            assert forall|a: int, c: int| 0 <= a < c < t1.len() implies leaf_id(#[trigger] t1[a]) < leaf_id(#[trigger] t1[c]) by {
                assert(t1[a] == t[a + 1] && t1[c] == t[c + 1]);
            }
        }
        lemma_sorted_leaves_unique(s1, t1);
        assert(s =~= seq![s[0]] + s1);
        assert(t =~= seq![t[0]] + t1);
    }
}

/// Text without the separator splits into itself alone.
proof fn lemma_split_no_sep(s: Seq<char>, sep: char)
    requires
        forall|i: int| 0 <= i < s.len() ==> #[trigger] s[i] != sep,
    ensures
        split_on(s, sep) == seq![s],
    decreases s.len(),
{
    if s.len() > 0 {
        let t = s.drop_last();
        assert forall|i: int| 0 <= i < t.len() implies #[trigger] t[i] != sep by {
            assert(t[i] == s[i]);
        }
        lemma_split_no_sep(t, sep);
        assert(t.push(s.last()) =~= s);
        assert(s.last() != sep);
        assert(seq![t].update(0, t.push(s.last())) =~= seq![s]);
    } else {
        assert(s =~= Seq::<char>::empty());
    }
}

/// Trimming text that neither starts nor ends with white space keeps it.
proof fn lemma_no_white_space_trims(s: Seq<char>)
    requires
        s.len() > 0,
        !is_white_space(s[0]),
        !is_white_space(s.last()),
    ensures
        trim_spec(s) == s,
{
}

} // verus!
