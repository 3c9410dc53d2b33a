use tesseract::error::Error;
use tesseract::jump_hash::jump_hash;
use tesseract::shard_manager::{ShardManager, NUM_SHARDS};
use tesseract::types::VectorId;

#[test]
fn assign_and_get_leader() {
    let mut sm = ShardManager::new("node-a");
    sm.assign_shard(0, "node-a").unwrap();
    sm.assign_shard(1, "node-b").unwrap();

    assert_eq!(sm.get_leader(0), Some("node-a"));
    assert_eq!(sm.get_leader(1), Some("node-b"));
}

#[test]
fn get_leader_unassigned_returns_none() {
    let sm = ShardManager::new("node-a");
    assert_eq!(sm.get_leader(99), None);
}

#[test]
fn remove_node_leader_reassigns_shards() {
    let mut sm = ShardManager::new("node-b");
    sm.assign_shard(0, "node-a").unwrap();
    sm.assign_shard(1, "node-b").unwrap();
    sm.assign_shard(2, "node-a").unwrap();

    let mut affected = sm.remove_node("node-a");
    affected.sort();
    assert_eq!(affected, vec![0, 2], "should report shards 0 and 2");
    assert_eq!(sm.get_leader(0), None, "shard 0 leader should be removed");
    assert_eq!(sm.get_leader(2), None, "shard 2 leader should be removed");
    assert_eq!(sm.get_leader(1), Some("node-b"), "shard 1 should be unchanged");
}

#[test]
fn remove_node_replica_cleans_replicas() {
    let mut sm = ShardManager::new("node-a");
    sm.assign_shard(0, "node-a").unwrap();
    sm.add_replica(0, "node-b").unwrap();
    sm.add_replica(0, "node-c").unwrap();

    let affected = sm.remove_node("node-b");
    assert_eq!(affected, vec![0], "shard 0 should be affected");

    let assignment = sm.assignment(0).unwrap();
    assert_eq!(assignment.replicas, vec!["node-c"]);
}

#[test]
fn add_replica_unassigned_shard_errors() {
    let mut sm = ShardManager::new("node-a");
    let err = sm.add_replica(99, "node-b").unwrap_err();
    assert!(matches!(err, Error::ShardNotAssigned(99)), "expected ShardNotAssigned(99), got {err:?}");
}

#[test]
fn add_replica_duplicate_is_idempotent() {
    let mut sm = ShardManager::new("node-a");
    sm.assign_shard(0, "node-a").unwrap();
    sm.add_replica(0, "node-b").unwrap();
    sm.add_replica(0, "node-b").unwrap();

    let assignment = sm.assignment(0).unwrap();
    assert_eq!(assignment.replicas.len(), 1);
}

#[test]
fn my_shards_returns_owned_and_replica_shards() {
    let mut sm = ShardManager::new("node-a");
    sm.assign_shard(0, "node-a").unwrap();
    sm.assign_shard(1, "node-b").unwrap();
    sm.add_replica(1, "node-a").unwrap();
    sm.assign_shard(2, "node-c").unwrap();

    let mine: Vec<u64> = sm.my_shards().iter().map(|a| a.shard_id).collect();
    assert!(mine.contains(&0));
    assert!(mine.contains(&1));
    assert!(!mine.contains(&2));
}

#[test]
fn empty_shard_manager() {
    let sm = ShardManager::new("node-a");
    assert!(sm.is_empty());
    assert_eq!(sm.len(), 0);
}

#[test]
fn shard_for_vector_id() {
    let sm = ShardManager::new("node-a");
    let id = VectorId(42);
    let shard = sm.shard_for(&id);
    assert!(shard < NUM_SHARDS, "shard {shard} out of range");

    assert_eq!(sm.shard_for(&id), shard);
}

#[test]
fn assign_shard_preserves_replicas() {
    let mut sm = ShardManager::new("node-a");
    sm.assign_shard(0, "node-a").unwrap();
    sm.add_replica(0, "node-b").unwrap();

    sm.assign_shard(0, "node-c").unwrap();
    assert_eq!(sm.get_leader(0), Some("node-c"));
    let a0 = sm.assignment(0).unwrap();
    assert_eq!(a0.replicas, vec!["node-b"]);
}

#[test]
fn shard_for_is_jump_hash_over_all_shards() {
    let sm = ShardManager::new("n");
    assert_eq!(NUM_SHARDS, 64);
    for k in [0u64, 1, 42, 1 << 40, u64::MAX] {
        assert_eq!(sm.shard_for(&VectorId(k)), jump_hash(k, 64));
    }
}

#[test]
fn removing_unknown_node_changes_nothing() {
    let mut sm = ShardManager::new("a");
    sm.assign_shard(3, "a").unwrap();
    sm.add_replica(3, "b").unwrap();
    assert!(sm.remove_node("zzz").is_empty());
    assert_eq!(sm.len(), 1);
    assert_eq!(sm.assignment(3).unwrap().replicas, vec!["b"]);
}

#[test]
fn removed_node_appears_nowhere() {
    let mut sm = ShardManager::new("a");
    sm.assign_shard(1, "x").unwrap();
    sm.assign_shard(2, "y").unwrap();
    sm.add_replica(2, "x").unwrap();
    sm.add_replica(2, "z").unwrap();
    let mut affected = sm.remove_node("x");
    affected.sort();
    assert_eq!(affected, vec![1, 2]);
    for (shard, leader) in sm.assigned_leaders() {
        assert_ne!(leader, "x");
        assert!(!sm.assignment(shard).unwrap().replicas.contains(&"x".to_string()));
    }
    assert_eq!(sm.assignment(2).unwrap().replicas, vec!["z"]);
}

#[test]
fn assigned_leaders_lists_every_assignment() {
    let mut sm = ShardManager::new("a");
    sm.assign_shard(5, "p").unwrap();
    sm.assign_shard(9, "q").unwrap();
    sm.assign_shard(5, "r").unwrap();
    let mut l = sm.assigned_leaders();
    l.sort();
    assert_eq!(l, vec![(5, "r".to_string()), (9, "q".to_string())]);
    assert_eq!(sm.len(), 2);
    assert!(!sm.is_empty());
}
