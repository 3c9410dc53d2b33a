use tesseract::error::Error;

#[test]
fn dimension_mismatch_display() {
    let err = Error::DimensionMismatch(3, 5);
    assert_eq!(err.to_string(), "Dimension mismatch: self has 3 dimensions, other has 5");
}

#[test]
fn index_out_of_bounds_display() {
    let err = Error::IndexOutOfBounds(7, 5);
    assert_eq!(err.to_string(), "Index 7 out of bounds for vector of length 5");
}

#[test]
fn parse_error_display() {
    let err = Error::ParseError { line: 3, col: 14, message: "expected '('".into() };
    assert_eq!(err.to_string(), "Parse error at line 3, column 14: expected '('");
}

#[test]
fn corrupt_wal_display() {
    let err = Error::CorruptWal { segment: 5, offset: 1024 };
    assert_eq!(err.to_string(), "Corrupt WAL at segment 5: CRC mismatch at offset 1024");
}

#[test]
fn crc_mismatch_display() {
    let err = Error::CrcMismatch { expected: 0xDEAD, actual: 0xBEEF };
    assert_eq!(err.to_string(), "CRC mismatch: expected 0xdead, got 0xbeef");
}

#[test]
fn payload_truncated_display() {
    let err = Error::PayloadTruncated { expected: 100, actual: 42 };
    assert_eq!(err.to_string(), "Payload truncated: expected 100 bytes, got 42");
}

#[test]
fn shard_not_assigned_display() {
    let err = Error::ShardNotAssigned(7);
    assert_eq!(err.to_string(), "Shard 7 is not assigned to any node");
}

#[test]
fn all_shards_failed_display() {
    let err = Error::AllShardsFailed;
    assert_eq!(err.to_string(), "All shards failed during distributed query");
}

#[test]
fn node_conflict_display() {
    let err = Error::NodeConflict("node-a already registered".into());
    assert_eq!(err.to_string(), "Node conflict: node-a already registered");
}

#[test]
fn invalid_vector_display() {
    let err = Error::InvalidVector("vector must be finite and non-zero".into());
    assert_eq!(err.to_string(), "Invalid vector: vector must be finite and non-zero");
}

#[test]
fn invalid_config_display() {
    let err = Error::InvalidConfig("bucket boundaries must not be empty".into());
    assert_eq!(err.to_string(), "Invalid config: bucket boundaries must not be empty");
}

#[test]
fn lock_poisoned_display() {
    let err = Error::LockPoisoned("engine mutex".into());
    assert_eq!(err.to_string(), "Lock poisoned: engine mutex");
}

#[test]
fn serialization_error_display() {
    let err = Error::SerializationError("bincode error".into());
    assert_eq!(err.to_string(), "Serialization error: bincode error");
}

#[test]
fn json_error_display() {
    let err = Error::JsonError("invalid JSON".into());
    assert_eq!(err.to_string(), "JSON error: invalid JSON");
}

#[test]
fn remaining_variants_display() {
    assert_eq!(Error::AlreadyExists("vector 9".into()).to_string(), "vector 9 already exists");
    assert_eq!(Error::NotFound("node x".into()).to_string(), "node x not found");
    assert_eq!(Error::IndexNotBuilt.to_string(), "Index not built");
    assert_eq!(Error::UnsupportedDimension(0).to_string(), "Unsupported dimension: 0");
    assert_eq!(Error::GraphCorrupt("dangling edge".into()).to_string(), "Graph corrupt: dangling edge");
    assert_eq!(Error::ServiceError("boom".into()).to_string(), "boom");
}

#[test]
fn numbers_at_their_extremes_display() {
    assert_eq!(
        Error::CrcMismatch { expected: 0, actual: u32::MAX }.to_string(),
        "CRC mismatch: expected 0x0, got 0xffffffff"
    );
    assert_eq!(
        Error::CorruptWal { segment: u64::MAX, offset: 0 }.to_string(),
        "Corrupt WAL at segment 18446744073709551615: CRC mismatch at offset 0"
    );
    assert_eq!(Error::ShardNotAssigned(0).to_string(), "Shard 0 is not assigned to any node");
}
