//! The error type shared by the whole library, with its messages.

use vstd::prelude::*;
use crate::text::{decimal, hex, push_decimal, push_hex, push_str};

verus! {

/// Unified error type.
#[derive(Debug)]
pub enum Error {
    DimensionMismatch(usize, usize),
    IndexOutOfBounds(usize, usize),
    ParseError { line: usize, col: usize, message: String },
    CorruptWal { segment: u64, offset: u64 },
    CrcMismatch { expected: u32, actual: u32 },
    PayloadTruncated { expected: usize, actual: usize },
    InvalidVector(String),
    InvalidConfig(String),
    LockPoisoned(String),
    SerializationError(String),
    JsonError(String),
    AlreadyExists(String),
    NotFound(String),
    IndexNotBuilt,
    UnsupportedDimension(usize),
    GraphCorrupt(String),
    ShardNotAssigned(u64),
    AllShardsFailed,
    NodeConflict(String),
    ServiceError(String),
}

/// The human-readable message of an error.
pub open spec fn error_message(e: &Error) -> Seq<char> {
    match e {
        Error::DimensionMismatch(a, b) => "Dimension mismatch: self has "@ + decimal(*a as nat)
            + " dimensions, other has "@ + decimal(*b as nat),
        Error::IndexOutOfBounds(i, n) => "Index "@ + decimal(*i as nat)
            + " out of bounds for vector of length "@ + decimal(*n as nat),
        Error::ParseError { line, col, message } => "Parse error at line "@ + decimal(
            *line as nat,
        ) + ", column "@ + decimal(*col as nat) + ": "@ + message@,
        Error::CorruptWal { segment, offset } => "Corrupt WAL at segment "@ + decimal(
            *segment as nat,
        ) + ": CRC mismatch at offset "@ + decimal(*offset as nat),
        Error::CrcMismatch { expected, actual } => "CRC mismatch: expected 0x"@ + hex(
            *expected as nat,
        ) + ", got 0x"@ + hex(*actual as nat),
        Error::PayloadTruncated { expected, actual } => "Payload truncated: expected "@ + decimal(
            *expected as nat,
        ) + " bytes, got "@ + decimal(*actual as nat),
        Error::InvalidVector(m) => "Invalid vector: "@ + m@,
        Error::InvalidConfig(m) => "Invalid config: "@ + m@,
        Error::LockPoisoned(m) => "Lock poisoned: "@ + m@,
        Error::SerializationError(m) => "Serialization error: "@ + m@,
        Error::JsonError(m) => "JSON error: "@ + m@,
        Error::AlreadyExists(m) => m@ + " already exists"@,
        Error::NotFound(m) => m@ + " not found"@,
        Error::IndexNotBuilt => "Index not built"@,
        Error::UnsupportedDimension(d) => "Unsupported dimension: "@ + decimal(*d as nat),
        Error::GraphCorrupt(m) => "Graph corrupt: "@ + m@,
        Error::ShardNotAssigned(s) => "Shard "@ + decimal(*s as nat)
            + " is not assigned to any node"@,
        Error::AllShardsFailed => "All shards failed during distributed query"@,
        Error::NodeConflict(m) => "Node conflict: "@ + m@,
        Error::ServiceError(m) => m@,
    }
}

impl Error {
    /// The human-readable message of this error.
    pub fn to_string(&self) -> (r: String)
        ensures
            r@ == error_message(self),
    {
        let mut s = String::new();
        match self {
            Error::DimensionMismatch(a, b) => {
                push_str(&mut s, "Dimension mismatch: self has ");
                push_decimal(&mut s, *a as u128);
                push_str(&mut s, " dimensions, other has ");
                push_decimal(&mut s, *b as u128);
            },
            Error::IndexOutOfBounds(i, n) => {
                push_str(&mut s, "Index ");
                push_decimal(&mut s, *i as u128);
                push_str(&mut s, " out of bounds for vector of length ");
                push_decimal(&mut s, *n as u128);
            },
            Error::ParseError { line, col, message } => {
                push_str(&mut s, "Parse error at line ");
                push_decimal(&mut s, *line as u128);
                push_str(&mut s, ", column ");
                push_decimal(&mut s, *col as u128);
                push_str(&mut s, ": ");
                push_str(&mut s, message.as_str());
            },
            Error::CorruptWal { segment, offset } => {
                push_str(&mut s, "Corrupt WAL at segment ");
                push_decimal(&mut s, *segment as u128);
                push_str(&mut s, ": CRC mismatch at offset ");
                push_decimal(&mut s, *offset as u128);
            },
            Error::CrcMismatch { expected, actual } => {
                push_str(&mut s, "CRC mismatch: expected 0x");
                push_hex(&mut s, *expected as u128);
                push_str(&mut s, ", got 0x");
                push_hex(&mut s, *actual as u128);
            },
            Error::PayloadTruncated { expected, actual } => {
                push_str(&mut s, "Payload truncated: expected ");
                push_decimal(&mut s, *expected as u128);
                push_str(&mut s, " bytes, got ");
                push_decimal(&mut s, *actual as u128);
            },
            Error::InvalidVector(m) => {
                push_str(&mut s, "Invalid vector: ");
                push_str(&mut s, m.as_str());
            },
            Error::InvalidConfig(m) => {
                push_str(&mut s, "Invalid config: ");
                push_str(&mut s, m.as_str());
            },
            Error::LockPoisoned(m) => {
                push_str(&mut s, "Lock poisoned: ");
                push_str(&mut s, m.as_str());
            },
            Error::SerializationError(m) => {
                push_str(&mut s, "Serialization error: ");
                push_str(&mut s, m.as_str());
            },
            Error::JsonError(m) => {
                push_str(&mut s, "JSON error: ");
                push_str(&mut s, m.as_str());
            },
            Error::AlreadyExists(m) => {
                push_str(&mut s, m.as_str());
                push_str(&mut s, " already exists");
            },
            Error::NotFound(m) => {
                push_str(&mut s, m.as_str());
                push_str(&mut s, " not found");
            },
            Error::IndexNotBuilt => {
                push_str(&mut s, "Index not built");
            },
            Error::UnsupportedDimension(d) => {
                push_str(&mut s, "Unsupported dimension: ");
                push_decimal(&mut s, *d as u128);
            },
            Error::GraphCorrupt(m) => {
                push_str(&mut s, "Graph corrupt: ");
                push_str(&mut s, m.as_str());
            },
            Error::ShardNotAssigned(id) => {
                push_str(&mut s, "Shard ");
                push_decimal(&mut s, *id as u128);
                push_str(&mut s, " is not assigned to any node");
            },
            Error::AllShardsFailed => {
                push_str(&mut s, "All shards failed during distributed query");
            },
            Error::NodeConflict(m) => {
                push_str(&mut s, "Node conflict: ");
                push_str(&mut s, m.as_str());
            },
            Error::ServiceError(m) => {
                push_str(&mut s, m.as_str());
            },
        }
        proof {
            assert(s@ =~= error_message(self));
        }
        s
    }
}

} // verus!
