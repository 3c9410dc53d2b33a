use tesseract::cluster::{ClusterState, NodeIdentity};
use tesseract::discovery::{NodeInfo, NodeRegistry};
use tesseract::error::Error;
use tesseract::query_coordinator::{gather_outcome, per_shard_timeout_ms, search_shards, shard_search_target, ShardTarget};
use tesseract::shard_manager::ShardManager;

#[test]
fn all_shards_failed_error_variant() {
    let err = Error::AllShardsFailed;
    assert_eq!(err.to_string(), "All shards failed during distributed query");
}

#[test]
fn per_shard_timeout_proration() {
    let within_ms = 2000u64;
    let total_shards = 4usize;
    let per = per_shard_timeout_ms(Some(within_ms), total_shards, 30_000);
    assert_eq!(per, 500);
}

#[test]
fn per_shard_timeout_floor() {
    let within_ms = 100u64;
    let total_shards = 10usize;
    let per = per_shard_timeout_ms(Some(within_ms), total_shards, 30_000);
    assert_eq!(per, 50);
}

#[test]
fn per_shard_timeout_without_budget_uses_default() {
    assert_eq!(per_shard_timeout_ms(None, 3, 1234), 1234);
    assert_eq!(per_shard_timeout_ms(Some(153), 3, 1234), 51);
    assert_eq!(per_shard_timeout_ms(Some(150), 3, 1234), 50);
    assert_eq!(per_shard_timeout_ms(Some(u64::MAX), 1, 0), u64::MAX);
}


#[test]
fn search_fans_out_to_every_assigned_shard() {
    let sm = ShardManager::new("a");
    assert!(matches!(search_shards(&sm), Err(Error::AllShardsFailed)));
    let mut sm = ShardManager::new("a");
    sm.assign_shard(4, "a").unwrap();
    sm.assign_shard(1, "b").unwrap();
    sm.assign_shard(4, "c").unwrap();
    let mut ids = search_shards(&sm).unwrap();
    ids.sort();
    assert_eq!(ids, vec![1, 4]);
}

#[test]
fn shard_targets() {
    let mut sm = ShardManager::new("a");
    sm.assign_shard(0, "a").unwrap();
    sm.assign_shard(1, "b").unwrap();
    sm.assign_shard(2, "c").unwrap();
    let mut registry = NodeRegistry::new(30);
    registry.register(NodeInfo::new("b", "10.0.0.2:9", vec![])).unwrap();
    let state = ClusterState::new(NodeIdentity::new("a", "10.0.0.1:9"), registry, sm);

    assert!(matches!(shard_search_target(&state, 0), Ok(ShardTarget::Local)));
    assert!(matches!(shard_search_target(&state, 1),
        Ok(ShardTarget::Remote { leader, addr }) if leader == "b" && addr == "10.0.0.2:9"));
    let err = shard_search_target(&state, 2).unwrap_err();
    assert!(matches!(&err, Error::NotFound(m) if m == "leader node c"));
    assert_eq!(err.to_string(), "leader node c not found");
    assert!(matches!(shard_search_target(&state, 3), Err(Error::ShardNotAssigned(3))));
}

#[test]
fn gathered_answers() {
    assert!(matches!(gather_outcome(3, 0), Err(Error::AllShardsFailed)));
    assert_eq!(gather_outcome(3, 2).unwrap(), true);
    assert_eq!(gather_outcome(3, 3).unwrap(), false);
}
