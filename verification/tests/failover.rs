use std::collections::HashMap;

use tesseract::failover::{FailoverConfig, FailoverManager};
use tesseract::leader_election::ElectionState;
use tesseract::replication::{ReplicationConfig, ReplicationEngine, ReplicationEntry};
use tesseract::shard_manager::ShardManager;

fn make_failover_manager(node_id: &str, config: FailoverConfig) -> FailoverManager {
    FailoverManager::new(node_id, config)
}

fn replication_with_lag(leader_id: &str, follower_id: &str, total_entries: u64, acked: u64) -> ReplicationEngine {
    let mut engine = ReplicationEngine::new(0, leader_id, ReplicationConfig::default());
    engine.add_replica(follower_id, "127.0.0.1:9002");

    for i in 1..=total_entries {
        engine.record_entry(ReplicationEntry { txn_id: i, shard_id: 0, op_code: 0x01, payload: vec![] }).unwrap();
    }
    engine.ack(follower_id, acked);
    engine
}

#[test]
fn eligible_with_low_lag() {
    let config = FailoverConfig { max_promotion_lag: 100, ..Default::default() };
    let fm = make_failover_manager("node-b", config);

    let replication = replication_with_lag("node-a", "node-b", 10, 9);

    assert!(fm.is_eligible_for_promotion(0, &replication));
}

#[test]
fn not_eligible_with_high_lag() {
    let config = FailoverConfig { max_promotion_lag: 3, ..Default::default() };
    let fm = make_failover_manager("node-b", config);

    let replication = replication_with_lag("node-a", "node-b", 10, 3);

    assert!(!fm.is_eligible_for_promotion(0, &replication));
}

#[test]
fn check_and_failover_promotes_eligible_leader() {
    let config = FailoverConfig { election_timeout_ms: 50, max_promotion_lag: 100, ..Default::default() };

    let mut sm = ShardManager::new("node-b");
    let mut fm = FailoverManager::new("node-b", config);

    fm.election_mut().set_leader(0, "node-a");

    let replication = replication_with_lag("node-a", "node-b", 5, 5);
    fm.set_replication_engine(0, replication);

    let promoted = fm.check_and_failover(&mut sm, 0).unwrap();
    assert!(promoted.contains(&0), "node-b should be promoted for shard 0");

    assert_eq!(fm.election().state(0), ElectionState::Leader);

    assert_eq!(sm.get_leader(0), Some("node-b"));
}

#[test]
fn check_and_failover_skips_healthy_leaders() {
    let config = FailoverConfig { election_timeout_ms: 5000, max_promotion_lag: 100, ..Default::default() };

    let mut sm = ShardManager::new("node-b");
    let mut fm = FailoverManager::new("node-b", config);

    fm.election_mut().set_leader(0, "node-a");

    let promoted = fm.check_and_failover(&mut sm, 0).unwrap();
    assert!(promoted.is_empty(), "should not promote while leader is healthy");
    assert_eq!(fm.election().state(0), ElectionState::Follower { leader_id: "node-a".into() });
}

#[test]
fn check_and_failover_skips_ineligible_followers() {
    let config = FailoverConfig { election_timeout_ms: 50, max_promotion_lag: 3, ..Default::default() };

    let mut sm = ShardManager::new("node-b");
    let mut fm = FailoverManager::new("node-b", config);

    fm.election_mut().set_leader(0, "node-a");

    let replication = replication_with_lag("node-a", "node-b", 10, 1);
    fm.set_replication_engine(0, replication);

    let promoted = fm.check_and_failover(&mut sm, 0).unwrap();
    assert!(promoted.is_empty(), "should not promote ineligible follower");
    assert_eq!(fm.election().state(0), ElectionState::Follower { leader_id: "node-a".into() });
}

#[test]
fn promotion_candidates_returns_eligibility() {
    let config = FailoverConfig { max_promotion_lag: 5, ..Default::default() };
    let mut fm = make_failover_manager("node-b", config);

    fm.election_mut().set_leader(0, "node-a");
    fm.election_mut().set_leader(1, "node-c");

    let rep0 = replication_with_lag("node-a", "node-b", 10, 10);
    let rep1 = replication_with_lag("node-c", "node-b", 10, 1);

    fm.set_replication_engine(0, rep0);
    fm.set_replication_engine(1, rep1);

    let candidates = fm.promotion_candidates();
    assert_eq!(candidates.len(), 2);

    let map: HashMap<u64, bool> = candidates.into_iter().collect();
    assert!(map.get(&0).unwrap(), "shard 0 should be eligible");
    assert!(!map.get(&1).unwrap(), "shard 1 should not be eligible");
}

#[test]
fn promote_to_leader_with_eligible_follower() {
    let config = FailoverConfig { max_promotion_lag: 100, ..Default::default() };
    let mut sm = ShardManager::new("node-b");
    let mut fm = FailoverManager::new("node-b", config);

    let replication = replication_with_lag("node-a", "node-b", 10, 10);
    fm.set_replication_engine(0, replication);

    let result = fm.promote_to_leader(0, &mut sm, 0).unwrap();
    assert!(result, "promotion should succeed");

    assert_eq!(fm.election().state(0), ElectionState::Leader);
    assert_eq!(sm.get_leader(0), Some("node-b"));
}

#[test]
fn promote_to_leader_with_ineligible_follower() {
    let config = FailoverConfig { max_promotion_lag: 3, ..Default::default() };
    let mut sm = ShardManager::new("node-b");
    let mut fm = FailoverManager::new("node-b", config);

    let replication = replication_with_lag("node-a", "node-b", 10, 1);
    fm.set_replication_engine(0, replication);

    let result = fm.promote_to_leader(0, &mut sm, 0).unwrap();
    assert!(!result, "promotion should be declined for ineligible follower");
    assert_eq!(fm.election().state(0), ElectionState::NoLeader);
    assert_eq!(sm.get_leader(0), None);
}

#[test]
fn promote_keeps_existing_replicas() {
    let config = FailoverConfig::default();
    let mut sm = ShardManager::new("node-b");
    sm.assign_shard(0, "node-a").unwrap();
    sm.add_replica(0, "node-b").unwrap();
    let mut fm = FailoverManager::new("node-b", config);
    fm.set_replication_engine(0, replication_with_lag("node-a", "node-b", 3, 3));
    assert!(fm.promote_to_leader(0, &mut sm, 0).unwrap());
    assert_eq!(sm.get_leader(0), Some("node-b"));
    let mine = sm.my_shards();
    assert_eq!(mine.len(), 1);
    assert_eq!(mine[0].replicas, vec!["node-b".to_string()]);
}

#[test]
fn untracked_follower_is_not_eligible() {
    let fm = make_failover_manager("node-q", FailoverConfig::default());
    let replication = replication_with_lag("node-a", "node-b", 2, 2);
    assert!(!fm.is_eligible_for_promotion(0, &replication));
}

#[test]
fn removed_replication_engine_makes_shard_ineligible() {
    let mut fm = make_failover_manager("node-b", FailoverConfig::default());
    fm.election_mut().set_leader(0, "node-a");
    fm.set_replication_engine(0, replication_with_lag("node-a", "node-b", 1, 1));
    assert_eq!(fm.promotion_candidates(), vec![(0, true)]);
    fm.remove_replication_engine(0);
    assert_eq!(fm.promotion_candidates(), vec![(0, false)]);
}

#[test]
fn failover_config_defaults() {
    let c = FailoverConfig::default();
    assert_eq!(c.election_timeout_ms, 3000);
    assert_eq!(c.check_interval_ms, 500);
    assert_eq!(c.max_promotion_lag, 100);
}

#[test]
fn check_and_failover_waits_for_the_timeout() {
    let config = FailoverConfig { election_timeout_ms: 50, max_promotion_lag: 100, ..Default::default() };
    let mut sm = ShardManager::new("node-b");
    let mut fm = FailoverManager::new("node-b", config);
    fm.election_mut().set_leader(0, "node-a");
    fm.election_mut().record_leader_heartbeat(0, 1_000_000_000);
    fm.set_replication_engine(0, replication_with_lag("node-a", "node-b", 5, 5));

    let promoted = fm.check_and_failover(&mut sm, 1_050_000_000).unwrap();
    assert!(promoted.is_empty(), "leader heard from within the timeout stays leader");
    assert_eq!(sm.get_leader(0), None);

    let promoted = fm.check_and_failover(&mut sm, 1_050_000_001).unwrap();
    assert_eq!(promoted, vec![0]);
    assert_eq!(fm.election().state(0), ElectionState::Leader);
    assert_eq!(sm.get_leader(0), Some("node-b"));
    assert!(!fm.election().has_leader_timed_out(0, 1_100_000_001));
}
