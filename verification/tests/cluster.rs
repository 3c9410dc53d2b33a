use tesseract::cluster::{ClusterState, NodeIdentity};
use tesseract::discovery::{NodeInfo, NodeRegistry, NodeStatus};
use tesseract::leader_election::ElectionState;
use tesseract::replication::{ReplicationConfig, ReplicationEngine};
use tesseract::error::Error;
use tesseract::shard_manager::ShardManager;

fn make_state(node_id: &str) -> ClusterState {
    let identity = NodeIdentity::new(node_id, "127.0.0.1:9001");
    let registry = NodeRegistry::new(30);
    let shard_manager = ShardManager::new(node_id);
    ClusterState::new(identity, registry, shard_manager)
}

#[test]
fn join_registers_local_node() {
    let mut state = make_state("node-a");
    state.join().unwrap();

    let node = state.registry().get_node("node-a");
    assert!(node.is_some(), "node-a should be registered after join");

    let node = node.unwrap();
    assert_eq!(node.node_id, "node-a");
    assert_eq!(node.addr, "127.0.0.1:9001");
    assert_eq!(node.status, NodeStatus::Active);
}

#[test]
fn leave_removes_from_registry() {
    let mut state = make_state("node-a");
    state.join().unwrap();
    assert!(state.registry().get_node("node-a").is_some());

    state.leave().unwrap();
    assert!(state.registry().get_node("node-a").is_none(), "node should be removed after leave");
}

#[test]
fn join_includes_assigned_shards() {
    let identity = NodeIdentity::new("node-a", "127.0.0.1:9001");
    let registry = NodeRegistry::new(30);
    let mut shard_manager = ShardManager::new("node-a");
    shard_manager.assign_shard(0, "node-a").unwrap();
    shard_manager.assign_shard(1, "node-a").unwrap();

    let mut state = ClusterState::new(identity, registry, shard_manager);
    state.join().unwrap();

    let node = state.registry().get_node("node-a").unwrap();
    assert_eq!(node.shards, vec![0, 1], "join should include assigned shards");
}

#[test]
fn rejoin_after_leave() {
    let mut state = make_state("node-a");
    state.join().unwrap();
    state.leave().unwrap();

    state.join().unwrap();
    assert!(state.registry().get_node("node-a").is_some(), "re-join should succeed");
}

#[test]
fn identity_accessor() {
    let state = make_state("node-x");
    assert_eq!(state.identity().node_id, "node-x");
    assert_eq!(state.identity().addr, "127.0.0.1:9001");
}

#[test]
fn shards_accessor() {
    let state = make_state("node-a");
    let sm = state.shards();
    assert!(sm.is_empty());
}

#[test]
fn leader_election_exists() {
    let state = make_state("node-a");
    assert_eq!(state.leader_election.node_id(), "node-a");
    assert_eq!(state.leader_election.elected_count(), 0);
}

#[test]
fn failover_manager_exists() {
    let state = make_state("node-a");
    assert_eq!(state.failover.election().node_id(), "node-a");
}

#[test]
fn join_lists_replica_shards_in_increasing_order() {
    let identity = NodeIdentity::new("node-a", "127.0.0.1:9001");
    let registry = NodeRegistry::new(30);
    let mut shard_manager = ShardManager::new("node-a");
    shard_manager.assign_shard(7, "node-b").unwrap();
    shard_manager.add_replica(7, "node-a").unwrap();
    shard_manager.assign_shard(3, "node-a").unwrap();
    shard_manager.assign_shard(5, "node-c").unwrap();

    let mut state = ClusterState::new(identity, registry, shard_manager);
    state.join().unwrap();
    let node = state.registry().get_node("node-a").unwrap();
    assert_eq!(node.shards, vec![3, 7]);
}

#[test]
fn join_conflicts_with_other_address() {
    let identity = NodeIdentity::new("node-a", "127.0.0.1:9001");
    let mut registry = NodeRegistry::new(30);
    registry.register(NodeInfo::new("node-a", "10.9.9.9:1", vec![])).unwrap();
    let mut state = ClusterState::new(identity, registry, ShardManager::new("node-a"));
    let err = state.join().unwrap_err();
    assert!(matches!(&err, Error::NodeConflict(m) if m == "node node-a already registered at 10.9.9.9:1"));
    assert_eq!(state.registry().get_node("node-a").unwrap().addr, "10.9.9.9:1");
}

#[test]
fn cluster_check_and_failover_promotes_eligible_follower() {
    let mut sm = ShardManager::new("node-a");
    sm.assign_shard(4, "node-z").unwrap();
    let identity = NodeIdentity::new("node-a", "127.0.0.1:9001");
    let mut state = ClusterState::new(identity, NodeRegistry::new(30), sm);
    state.failover.election_mut().set_leader(4, "node-z");
    let mut engine = ReplicationEngine::new(4, "node-z", ReplicationConfig::default());
    engine.add_replica("node-a", "127.0.0.1:9001");
    state.failover.set_replication_engine(4, engine);

    let promoted = state.check_and_failover(0).unwrap();
    assert_eq!(promoted, vec![4]);
    assert_eq!(state.shards().get_leader(4), Some("node-a"));
    assert_eq!(state.failover.election().state(4), ElectionState::Leader);
}

#[test]
fn cluster_check_and_failover_without_replication_promotes_nothing() {
    let mut state = make_state("node-a");
    state.failover.election_mut().set_leader(4, "node-z");
    let promoted = state.check_and_failover(0).unwrap();
    assert!(promoted.is_empty());
    assert_eq!(state.shards().get_leader(4), None);
}
