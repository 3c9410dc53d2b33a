# Tesseract — verified cluster core

Tesseract is a semantic-relational database engine. This crate holds the
parts of it whose behaviour is stated as Verus contracts and proved:

- `src/` — the verified library: cluster membership and heartbeats
  (`discovery`), per-shard leader election (`leader_election`), WAL
  replication bookkeeping (`replication`), shard placement by jump hashing
  (`jump_hash`, `shard_manager`), failover (`failover`, `cluster`), the
  answers of the cluster endpoints (`cluster_api`), the decisions of a
  distributed query (`query_coordinator`), authentication by API key and
  bearer token (`auth`), the embedding client's retry policy and the
  deterministic test embedding (`embedding`), the PostgreSQL-side client's
  error handling (`pg_client`, `config`), the MCP server's tool dispatch
  (`mcp`), the progressive Merkle tree — its nodes, hash chaining and
  construction, the merge of vector batches into its clusters with the
  splitting of overfull clusters, and its hot buffer (`merkle_tree`,
  `merkle_hash`, `merkle_merge`, `hot_buffer`), error messages (`error`), and text helpers (`text`,
  `keyed`).
  Properties that span several operations are proved in `laws`.
- `tests/` — tests of the library, run against the compiled crate.
- `app/` — ordinary Rust around the library: HTTP servers and clients,
  the MCP server, serializable copies of the library's types, and the
  floating-point vector machinery (distances, HNSW index, the centroid
  arithmetic of the Merkle tree, topological statistics, episodic memory).
