use tesseract::error::Error;
use tesseract::leader_election::{ElectionState, LeaderElection};

#[test]
fn become_candidate_changes_state_to_candidate() {
    let mut election = LeaderElection::new("node-a", 3000);
    assert_eq!(election.state(0), ElectionState::NoLeader);

    election.become_candidate(0);
    assert_eq!(election.state(0), ElectionState::Candidate);
}

#[test]
fn win_election_changes_state_to_leader() {
    let mut election = LeaderElection::new("node-a", 3000);
    election.become_candidate(0);
    election.win_election(0, 0).unwrap();
    assert_eq!(election.state(0), ElectionState::Leader);
}

#[test]
fn set_leader_changes_state_to_follower() {
    let mut election = LeaderElection::new("node-b", 3000);
    election.set_leader(0, "node-a");
    assert_eq!(election.state(0), ElectionState::Follower { leader_id: "node-a".into() });
}

#[test]
fn record_heartbeat_prevents_timeout() {
    let mut election = LeaderElection::new("node-b", 200);
    election.set_leader(0, "node-a");

    let start: u128 = 7_000_000_000;
    election.record_leader_heartbeat(0, start);
    let now = start + 100_000_000;
    assert!(!election.has_leader_timed_out(0, now), "should not time out within election_timeout");
}

#[test]
fn timeout_detection_works() {
    let mut election = LeaderElection::new("node-b", 50);
    election.set_leader(0, "node-a");

    let start: u128 = 7_000_000_000;
    election.record_leader_heartbeat(0, start);
    let now = start + 100_000_000;
    assert!(election.has_leader_timed_out(0, now), "should time out after election_timeout");
}

#[test]
fn my_leaderships_returns_correct_shards() {
    let mut election = LeaderElection::new("node-a", 3000);

    election.become_candidate(0);
    election.win_election(0, 0).unwrap();
    election.become_candidate(1);
    election.win_election(1, 0).unwrap();

    let mut shards = election.my_leaderships();
    shards.sort_unstable();
    assert_eq!(shards, vec![0, 1], "should list both shards where node-a is leader");
}

#[test]
fn my_followerships_returns_correct_shards() {
    let mut election = LeaderElection::new("node-b", 3000);

    election.set_leader(0, "node-a");
    election.set_leader(1, "node-c");

    let mut followerships = election.my_followerships();
    followerships.sort_by_key(|(id, _)| *id);
    assert_eq!(followerships, vec![(0, "node-a".into()), (1, "node-c".into())]);
}

#[test]
fn win_election_on_non_candidate_errors() {
    let mut election = LeaderElection::new("node-a", 3000);

    let err = election.win_election(0, 0).unwrap_err();
    assert!(matches!(err, Error::ServiceError(_)), "expected ServiceError, got {err:?}");

    election.set_leader(1, "node-b");
    let err = election.win_election(1, 0).unwrap_err();
    assert!(matches!(err, Error::ServiceError(_)), "expected ServiceError for follower, got {err:?}");
}

#[test]
fn win_election_on_leader_is_idempotent() {
    let mut election = LeaderElection::new("node-a", 3000);
    election.become_candidate(0);
    election.win_election(0, 0).unwrap();
    assert!(election.win_election(0, 0).is_ok());
    assert_eq!(election.state(0), ElectionState::Leader);
}

#[test]
fn no_heartbeat_is_timed_out() {
    let mut election = LeaderElection::new("node-b", 3000);

    election.set_leader(0, "node-a");

    let now: u128 = 5_000_000_000;
    assert!(election.has_leader_timed_out(0, now), "shard with no heartbeat should be timed out");
    assert!(election.has_leader_timed_out(1, now), "unregistered shard should be timed out");
}

#[test]
fn elected_count_counts_leaders_and_followers() {
    let mut election = LeaderElection::new("node-a", 3000);

    assert_eq!(election.elected_count(), 0);

    election.become_candidate(0);
    election.win_election(0, 0).unwrap();
    election.set_leader(1, "node-b");
    election.become_candidate(2);

    assert_eq!(election.elected_count(), 2, "should count leader and follower, not candidate");
}

#[test]
fn win_election_error_messages() {
    let mut election = LeaderElection::new("node-a", 3000);
    let err = election.win_election(7, 0).unwrap_err();
    assert!(matches!(&err, Error::ServiceError(m)
        if m == "Cannot win election for shard 7: no election state exists"));

    election.set_leader(3, "node-\"b\"");
    let err = election.win_election(3, 0).unwrap_err();
    assert!(matches!(&err, Error::ServiceError(m)
        if m == "Cannot win election for shard 3: current state is Follower { leader_id: \"node-\\\"b\\\"\" }, expected Candidate"),
        "{err:?}");

    election.set_leader(4, "x");
    election.become_candidate(4);
    election.set_leader(4, "y");
    assert_eq!(election.state(4), ElectionState::Follower { leader_id: "y".into() });
}

#[test]
fn heartbeat_overdue_compares_against_timeout() {
    let election = LeaderElection::new("n", 50);
    assert_eq!(election.election_timeout_ms(), 50);
    assert!(!election.heartbeat_overdue(50_000_000));
    assert!(election.heartbeat_overdue(50_000_001));
}

#[test]
fn candidate_then_win_is_leader_and_counted() {
    let mut election = LeaderElection::new("n", 10);
    election.set_leader(9, "other");
    election.become_candidate(9);
    assert_eq!(election.elected_count(), 0);
    election.win_election(9, 0).unwrap();
    assert_eq!(election.my_leaderships(), vec![9]);
    assert!(election.my_followerships().is_empty());
    assert_eq!(election.elected_count(), 1);
    assert!(!election.has_leader_timed_out(9, 0));
    assert!(!election.has_leader_timed_out(9, 10_000_000));
    assert!(election.has_leader_timed_out(9, 10_000_001));
}

#[test]
fn timeout_counts_nanoseconds_against_milliseconds() {
    let mut election = LeaderElection::new("node-b", 200);
    election.set_leader(0, "node-a");
    election.record_leader_heartbeat(0, 1_000);
    assert!(!election.has_leader_timed_out(0, 1_000 + 200_000_000));
    assert!(election.has_leader_timed_out(0, 1_000 + 200_000_001));
    // A reading before the heartbeat counts as no time elapsed.
    assert!(!election.has_leader_timed_out(0, 0));
    // A later heartbeat restarts the timeout; setting a leader keeps it.
    election.record_leader_heartbeat(0, 500_000_000);
    election.set_leader(0, "node-c");
    assert!(!election.has_leader_timed_out(0, 600_000_000));
    assert!(election.has_leader_timed_out(0, 700_000_001));
}

#[test]
fn win_election_records_heartbeat_at_call_time() {
    let mut election = LeaderElection::new("node-a", 100);
    election.become_candidate(2);
    election.win_election(2, 1_000_000_000).unwrap();
    assert!(!election.has_leader_timed_out(2, 1_100_000_000));
    assert!(election.has_leader_timed_out(2, 1_100_000_001));
}
