use std::collections::BTreeSet;

use tesseract::discovery::{epoch_millis_text, parse_epoch_millis, NodeInfo, NodeRegistry, NodeStatus};
use tesseract::error::Error;

fn test_node(node_id: &str, addr: &str) -> NodeInfo {
    NodeInfo::new(node_id, addr, vec![])
}

fn stamp_of(registry: &NodeRegistry, id: &str) -> u128 {
    parse_epoch_millis(&registry.get_node(id).unwrap().last_heartbeat).unwrap()
}

#[test]
fn register_node_is_active() {
    let mut registry = NodeRegistry::new(30);
    registry.register(test_node("node-a", "10.0.0.1:9001")).unwrap();

    let node = registry.get_node("node-a").expect("node should exist");
    assert_eq!(node.status, NodeStatus::Active);
    assert_eq!(node.addr, "10.0.0.1:9001");
}

#[test]
fn register_duplicate_node_id_returns_conflict() {
    let mut registry = NodeRegistry::new(30);
    registry.register(test_node("node-a", "10.0.0.1:9001")).unwrap();

    let err = registry.register(test_node("node-a", "10.0.0.2:9001")).unwrap_err();
    assert!(
        matches!(&err, Error::NodeConflict(msg) if msg.contains("node-a")),
        "expected NodeConflict for duplicate ID, got {err:?}"
    );
}

#[test]
fn register_same_node_same_addr_is_update() {
    let mut registry = NodeRegistry::new(30);
    registry.register(test_node("node-a", "10.0.0.1:9001")).unwrap();

    let mut updated = test_node("node-a", "10.0.0.1:9001");
    updated.shards = vec![1, 2, 3];
    registry.register(updated).unwrap();

    let node = registry.get_node("node-a").expect("node should exist");
    assert_eq!(node.shards, vec![1, 2, 3]);
}

#[test]
fn heartbeat_refreshes_timeout() {
    let mut registry = NodeRegistry::new(1);
    registry.register(test_node("node-a", "10.0.0.1:9001")).unwrap();
    let registered = stamp_of(&registry, "node-a");

    // 1.1 s after registration, without a heartbeat the node is suspect.
    let timed_out = registry.check_heartbeats_at(registered + 1100);
    assert!(timed_out.contains(&"node-a".to_string()), "node-a should time out without heartbeat");

    // A heartbeat at that time makes it active again.
    registry.record_heartbeat("node-a", epoch_millis_text(registered + 1100)).unwrap();
    assert_eq!(registry.get_node("node-a").unwrap().status, NodeStatus::Active);
    let timed_out = registry.check_heartbeats_at(registered + 1100);
    assert!(!timed_out.contains(&"node-a".to_string()), "node-a should not time out after heartbeat");
}

#[test]
fn timeout_detection_with_short_timeout() {
    let mut registry = NodeRegistry::new(0);
    registry.register(test_node("node-a", "10.0.0.1:9001")).unwrap();
    let registered = stamp_of(&registry, "node-a");

    let timed_out = registry.check_heartbeats_at(registered + 10);
    assert!(timed_out.contains(&"node-a".to_string()), "node with 0s timeout should be suspect");
    assert_eq!(registry.get_node("node-a").unwrap().status, NodeStatus::Suspect);
}

#[test]
fn mark_dead_transitions_to_dead() {
    let mut registry = NodeRegistry::new(30);
    registry.register(test_node("node-a", "10.0.0.1:9001")).unwrap();

    registry.mark_dead("node-a").unwrap();
    let node = registry.get_node("node-a").expect("node should exist");
    assert_eq!(node.status, NodeStatus::Dead);
}

#[test]
fn active_nodes_filters_dead_and_suspect() {
    let mut registry = NodeRegistry::new(30);

    registry.register(test_node("node-a", "10.0.0.1:9001")).unwrap();
    registry.register(test_node("node-b", "10.0.0.2:9001")).unwrap();
    registry.register(test_node("node-c", "10.0.0.3:9001")).unwrap();

    // Give node-b an ancient heartbeat: epoch + 42 ms.
    registry.record_heartbeat("node-b", "42".to_string()).unwrap();
    registry.check_heartbeats();

    registry.mark_dead("node-c").unwrap();

    let active = registry.active_nodes();
    let active_ids: Vec<&str> = active.iter().map(|n| n.node_id.as_str()).collect();
    assert_eq!(active_ids, vec!["node-a"], "only node-a should be active, got: {active_ids:?}");
}

#[test]
fn remove_node_cleans_up() {
    let mut registry = NodeRegistry::new(30);
    registry.register(test_node("node-a", "10.0.0.1:9001")).unwrap();
    assert_eq!(registry.len(), 1);

    registry.remove_node("node-a");
    assert_eq!(registry.len(), 0);
    assert!(registry.is_empty());
}

#[test]
fn multiple_nodes_all_active() {
    let mut registry = NodeRegistry::new(30);

    for i in 0..3 {
        registry.register(test_node(&format!("node-{i}"), &format!("10.0.0.{i}:9001"))).unwrap();
    }

    assert_eq!(registry.len(), 3);

    let active = registry.active_nodes();
    assert_eq!(active.len(), 3, "all 3 nodes should be active");

    let ids: BTreeSet<&str> = active.iter().map(|n| n.node_id.as_str()).collect();
    let expected: BTreeSet<&str> = ["node-0", "node-1", "node-2"].into_iter().collect();
    assert_eq!(ids, expected);
}

#[test]
fn heartbeat_unknown_node_errors() {
    let mut registry = NodeRegistry::new(30);
    let err = registry.heartbeat("nonexistent").unwrap_err();
    assert!(matches!(err, Error::NotFound(_)));
}

#[test]
fn mark_dead_unknown_node_errors() {
    let mut registry = NodeRegistry::new(30);
    let err = registry.mark_dead("nonexistent").unwrap_err();
    assert!(matches!(err, Error::NotFound(_)));
}

#[test]
fn check_heartbeats_skips_dead_nodes() {
    let mut registry = NodeRegistry::new(0);
    registry.register(test_node("node-a", "10.0.0.1:9001")).unwrap();
    registry.mark_dead("node-a").unwrap();
    let registered = stamp_of(&registry, "node-a");

    let timed_out = registry.check_heartbeats_at(registered + 10);
    assert!(!timed_out.contains(&"node-a".to_string()), "dead node should not appear in timeouts");
    assert_eq!(registry.get_node("node-a").unwrap().status, NodeStatus::Dead);
}

#[test]
fn register_heartbeat_multiple_nodes() {
    let mut registry = NodeRegistry::new(5);

    registry.register(test_node("alpha", "10.0.0.1:9001")).unwrap();
    registry.register(test_node("beta", "10.0.0.2:9001")).unwrap();
    registry.register(test_node("gamma", "10.0.0.3:9001")).unwrap();

    assert_eq!(registry.len(), 3);

    assert_eq!(registry.active_nodes().len(), 3);

    for id in &["alpha", "beta", "gamma"] {
        registry.heartbeat(id).unwrap();
    }

    registry.remove_node("gamma");
    assert_eq!(registry.len(), 2);
    assert!(registry.get_node("gamma").is_none());
}

#[test]
fn heartbeat_stamp_round_trips() {
    assert_eq!(epoch_millis_text(0), "0");
    assert_eq!(epoch_millis_text(1700000000123), "1700000000123");
    assert_eq!(parse_epoch_millis("1700000000123"), Some(1700000000123));
    assert_eq!(parse_epoch_millis("+17"), Some(17));
    assert_eq!(parse_epoch_millis(""), None);
    assert_eq!(parse_epoch_millis("12a"), None);
    assert_eq!(parse_epoch_millis("-1"), None);
    assert_eq!(parse_epoch_millis("340282366920938463463374607431768211456"), None);
    assert_eq!(parse_epoch_millis("340282366920938463463374607431768211455"), Some(u128::MAX));
}

#[test]
fn fresh_heartbeat_is_not_expired() {
    let mut registry = NodeRegistry::new(2);
    registry.register(test_node("n", "a")).unwrap();
    registry.record_heartbeat("n", epoch_millis_text(10_000)).unwrap();
    assert!(registry.check_heartbeats_at(12_000).is_empty());
    assert_eq!(registry.check_heartbeats_at(12_001), vec!["n".to_string()]);
    // Already suspect: not reported again.
    assert!(registry.check_heartbeats_at(20_000).is_empty());
}

#[test]
fn unparsable_heartbeat_counts_as_epoch() {
    let mut registry = NodeRegistry::new(1);
    registry.register(test_node("n", "a")).unwrap();
    registry.record_heartbeat("n", "not-a-number".to_string()).unwrap();
    assert!(registry.check_heartbeats_at(1000).is_empty());
    assert_eq!(registry.check_heartbeats_at(1001), vec!["n".to_string()]);
    assert_eq!(registry.get_node("n").unwrap().status, NodeStatus::Suspect);
}

#[test]
fn conflict_message_names_existing_address() {
    let mut registry = NodeRegistry::new(30);
    registry.register(test_node("node-a", "10.0.0.1:9001")).unwrap();
    let err = registry.register(test_node("node-a", "10.0.0.2:9001")).unwrap_err();
    assert!(matches!(&err, Error::NodeConflict(m) if m == "node node-a already registered at 10.0.0.1:9001"));
    assert_eq!(err.to_string(), "Node conflict: node node-a already registered at 10.0.0.1:9001");
    assert_eq!(registry.get_node("node-a").unwrap().addr, "10.0.0.1:9001");
}

#[test]
fn all_nodes_includes_every_status() {
    let mut registry = NodeRegistry::new(30);
    registry.register(test_node("a", "1")).unwrap();
    registry.register(test_node("b", "2")).unwrap();
    registry.mark_dead("b").unwrap();
    assert_eq!(registry.all_nodes().len(), 2);
    assert_eq!(registry.active_nodes().len(), 1);
}
