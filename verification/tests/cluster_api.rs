use tesseract::cluster::{ClusterState, NodeIdentity};
use tesseract::cluster_api::{
    cluster_health, internal_health, node_listing, promotion_candidate_listing, route_insert, shard_assignment_listing,
    sort_pairs, InsertRoute,
};
use tesseract::failover::FailoverConfig;
use tesseract::replication::{ReplicationConfig, ReplicationEngine};
use tesseract::text::text_before;
use tesseract::discovery::{NodeInfo, NodeRegistry};
use tesseract::jump_hash::jump_hash;
use tesseract::shard_manager::ShardManager;

fn state_with(sm: ShardManager, registry: NodeRegistry) -> ClusterState {
    ClusterState::new(NodeIdentity::new("node-a", "127.0.0.1:9001"), registry, sm)
}

#[test]
fn health_counts_nodes_shards_and_roles() {
    let mut sm = ShardManager::new("node-a");
    sm.assign_shard(0, "node-a").unwrap();
    sm.assign_shard(1, "node-b").unwrap();
    let mut registry = NodeRegistry::new(30);
    registry.register(NodeInfo::new("node-b", "10.0.0.2:1", vec![])).unwrap();
    registry.register(NodeInfo::new("node-c", "10.0.0.3:1", vec![])).unwrap();
    registry.mark_dead("node-c").unwrap();
    let mut state = state_with(sm, registry);
    state.leader_election.become_candidate(0);
    state.leader_election.win_election(0, 0).unwrap();
    state.leader_election.set_leader(1, "node-b");
    state.leader_election.set_leader(2, "node-b");
    state.leader_election.become_candidate(3);

    let h = cluster_health(&state);
    assert_eq!(h.node_id, "node-a");
    assert_eq!(h.status, "healthy");
    assert_eq!(h.active_nodes, 1);
    assert_eq!(h.total_shards, 2);
    assert_eq!(h.leaderships, 1);
    assert_eq!(h.followerships, 2);
}

#[test]
fn listing_is_ordered_by_shard() {
    let mut sm = ShardManager::new("x");
    sm.assign_shard(9, "c").unwrap();
    sm.assign_shard(2, "a").unwrap();
    sm.add_replica(2, "z").unwrap();
    sm.assign_shard(5, "b").unwrap();
    let l = shard_assignment_listing(&sm);
    let got: Vec<(u64, String, usize)> = l.iter().map(|a| (a.shard_id, a.leader.clone(), a.replicas.len())).collect();
    assert_eq!(got, vec![(2, "a".to_string(), 0), (5, "b".to_string(), 0), (9, "c".to_string(), 0)]);
}

#[test]
fn sort_pairs_orders_by_key() {
    let v = vec![(3u64, "c".to_string()), (1, "a".to_string()), (2, "b".to_string()), (1, "d".to_string())];
    let s = sort_pairs(&v);
    let keys: Vec<u64> = s.iter().map(|p| p.0).collect();
    assert_eq!(keys, vec![1, 1, 2, 3]);
    let mut a = s.clone();
    a.sort();
    let mut b = v.clone();
    b.sort();
    assert_eq!(a, b);
    assert!(sort_pairs(&vec![]).is_empty());
}

#[test]
fn insert_routing() {
    let id = 42u64;
    let shard = jump_hash(id, 64);

    let state = state_with(ShardManager::new("node-a"), NodeRegistry::new(30));
    let r = route_insert(&state, id);
    assert!(matches!(r, InsertRoute::NoLeader { shard_id } if shard_id == shard));
    assert_eq!(r.failure_message(), Some(format!("shard {shard} has no leader assigned")));

    let mut sm = ShardManager::new("node-a");
    sm.assign_shard(shard, "node-a").unwrap();
    let r = route_insert(&state_with(sm, NodeRegistry::new(30)), id);
    assert!(matches!(r, InsertRoute::Local { shard_id } if shard_id == shard));
    assert_eq!(r.failure_message(), None);

    let mut sm = ShardManager::new("node-a");
    sm.assign_shard(shard, "node-b").unwrap();
    let r = route_insert(&state_with(sm, NodeRegistry::new(30)), id);
    assert!(matches!(&r, InsertRoute::LeaderUnknown { shard_id, leader } if *shard_id == shard && leader == "node-b"));
    assert_eq!(r.failure_message(), Some(format!("leader node-b for shard {shard} not found in registry")));

    let mut sm = ShardManager::new("node-a");
    sm.assign_shard(shard, "node-b").unwrap();
    let mut registry = NodeRegistry::new(30);
    registry.register(NodeInfo::new("node-b", "10.1.1.1:7", vec![])).unwrap();
    let r = route_insert(&state_with(sm, registry), id);
    assert!(matches!(&r, InsertRoute::Remote { shard_id, leader, addr }
        if *shard_id == shard && leader == "node-b" && addr == "10.1.1.1:7"));
}

#[test]
fn node_listing_is_ordered_by_id() {
    let mut registry = NodeRegistry::new(30);
    for id in ["node-b", "node-a", "Zeta", "node-aa", "éclair", "node-10", "node-9"] {
        registry.register(NodeInfo::new(id, "x", vec![])).unwrap();
    }
    registry.mark_dead("node-b").unwrap();
    let ids: Vec<String> = node_listing(&registry).into_iter().map(|n| n.node_id).collect();
    let mut expected: Vec<String> =
        ["node-b", "node-a", "Zeta", "node-aa", "éclair", "node-10", "node-9"].iter().map(|s| s.to_string()).collect();
    expected.sort();
    assert_eq!(ids, expected);
    assert!(node_listing(&NodeRegistry::new(1)).is_empty());
}

#[test]
fn text_order_matches_str_order() {
    let words = ["", "a", "ab", "b", "B", "é", "e\u{301}", "abc", "abd", "ab\u{0}", "\u{10FFFF}"];
    for x in words {
        for y in words {
            assert_eq!(text_before(x, y), x < y, "{x:?} < {y:?}");
        }
    }
}

#[test]
fn promotion_candidates_listing() {
    let mut state = state_with(ShardManager::new("node-a"), NodeRegistry::new(30));
    state.leader_election.set_leader(7, "node-x");
    state.leader_election.set_leader(2, "node-y");
    state.leader_election.become_candidate(5);
    state.failover.election_mut().set_leader(7, "node-x");
    let mut engine = ReplicationEngine::new(7, "node-x", ReplicationConfig::default());
    engine.add_replica("node-a", "127.0.0.1:9001");
    state.failover.set_replication_engine(7, engine);
    let list = promotion_candidate_listing(&state);
    let got: Vec<(u64, String, String, bool, u64)> = list
        .into_iter()
        .map(|c| (c.shard_id, c.current_leader, c.candidate_node, c.eligible, c.replication_lag))
        .collect();
    assert_eq!(
        got,
        vec![
            (2, "node-y".to_string(), "node-a".to_string(), false, 0),
            (7, "node-x".to_string(), "node-a".to_string(), true, 0),
        ]
    );
    let _ = FailoverConfig::default();
}

#[test]
fn internal_health_reports_leaderships() {
    let mut state = state_with(ShardManager::new("node-a"), NodeRegistry::new(30));
    let h = internal_health(&state);
    assert_eq!((h.node_id.as_str(), h.is_leader, h.shards.len()), ("node-a", false, 0));
    state.leader_election.become_candidate(3);
    state.leader_election.win_election(3, 0).unwrap();
    state.leader_election.set_leader(4, "b");
    let h = internal_health(&state);
    assert!(h.is_leader);
    assert_eq!(h.shards, vec![3]);
}
