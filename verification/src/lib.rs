//! A small in-memory BitTorrent DHT (BEP-0005): XOR distances, k-buckets,
//! the routing table that splits them, per-node peer lists and the
//! decisions a node takes while looking for or announcing a file.

pub mod bucket;
pub mod closest;
pub mod info_hash_big;
pub mod routing_table;
pub mod dht_methods;
pub mod node;
pub mod control_methods;
