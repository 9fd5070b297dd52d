//! A persistent approximate-nearest-neighbour index over page-granular byte
//! segments: the segment and node-store substrate, the ordered-map overlay,
//! the graph engine's bookkeeping, the batch queue and the chunked bootstrap
//! protocol, each with a machine-checked contract.

pub mod backlinks;
pub mod batch;
pub mod bitmap;
pub mod bytes;
pub mod composite;
pub mod engine;
pub mod graph;
pub mod http;
pub mod id_list;
pub mod link_updates;
pub mod loader;
pub mod metadata;
pub mod node_store;
pub mod ordered_map;
pub mod query;
pub mod segment;
pub mod status;
pub mod uploader;
