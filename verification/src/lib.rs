//! Peer discovery centre: the rules, queues, caches and wire formats behind a
//! BitTorrent discovery node, with their behaviour stated and proved.

pub mod bencode;
pub mod bencode_laws;
pub mod bits;
pub mod bytes;
pub mod chance;
pub mod config;
pub mod crash;
pub mod digest;
pub mod file_laws;
pub mod memory_monitor;
pub mod net;
pub mod node_identity;
pub mod pex;
pub mod port_allocator;
pub mod ranking;
pub mod services;
pub mod sorting;
pub mod startup;
pub mod startup_laws;
pub mod storage;
pub mod tasks;
pub mod text;
pub mod text_laws;
pub mod types;
pub mod workdir;
