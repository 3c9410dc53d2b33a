//! Cluster coordination, shard placement and supporting logic of the
//! Tesseract semantic-relational database, with machine-checked contracts.

pub mod text;
pub mod jump_hash;
pub mod error;
pub mod keyed;
pub mod discovery;
pub mod clock;
pub mod leader_election;
pub mod replication;
pub mod types;
pub mod shard_manager;
pub mod failover;
pub mod cluster;
pub mod auth;
pub mod config;
pub mod embedding;
pub mod cluster_api;
pub mod http;
pub mod pg_client;
pub mod rate_limiter;
pub mod query_coordinator;
pub mod distance;
pub mod mcp;
pub mod merkle_hash;
pub mod hot_buffer;
pub mod merkle_tree;
pub mod merkle_merge;
pub mod laws;
