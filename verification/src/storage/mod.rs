//! Storage layer: write scheduling, caches and repositories.

pub mod best_peers;
pub mod best_torrents;
pub mod cache_laws;
pub mod closest;
pub mod columns;
pub mod db;
pub mod entry_lookup;
pub mod fx_map;
pub mod infohash_repo;
pub mod io_laws;
pub mod io_scheduler;
pub mod key_laws;
pub mod keys;
pub mod l2_input;
pub mod node_laws;
pub mod node_repo;
pub mod log_laws;
pub mod oplog;
pub mod peer_laws;
pub mod peer_repo;
pub mod plan_laws;
pub mod propagation;
pub mod propagation_laws;
pub mod recency;
pub mod repo_query;
pub mod repo_traits;
pub mod schema;
pub mod sharded_map;
pub mod slab;
pub mod statements;
pub mod tiered_cache;
pub mod tracker_laws;
pub mod tracker_repo;
pub mod write_queue;
