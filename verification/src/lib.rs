//! A distributed key-value cache: cluster membership, a consistent-hash ring,
//! the node-to-node wire protocol and the routing of reads and writes.

pub mod api_cache;
pub mod cache;
pub mod cluster;
pub mod cluster_cache;
pub mod config;
pub mod error;
pub mod message;
pub mod node;
pub mod ring;
pub mod sequences;
pub mod wire;
