//! An approximate nearest-neighbour index over vectors of one dimension: a
//! hierarchical navigable small world graph.
//!
//! The index answers which of its vectors lie nearest to a query under the
//! squared Euclidean distance. Its vectors are the nodes of a layered
//! proximity graph. Every node exists at the base layer and, with a
//! probability that decays from layer to layer, at the layers above it up
//! to its birth layer. A query descends greedily from an entry point on the
//! top layer to the base layer, where a best-first search with a bounded
//! window collects the result.
//!
//! The executable code is verified against the mathematical description of
//! what it computes: [`graph`] holds the graph as a value, [`search`] the
//! search of one layer, [`select`] the choice of a node's neighbours,
//! [`link`] the linking of a new node, and [`hnsw`] the index itself.
//! [`vector`], [`node`] and [`memtable`] hold the data, [`queue`] the
//! priority queues that the searches run on, and [`storage`] the records
//! and the table of the key/value store beside the index.

pub mod graph;
pub mod hnsw;
pub mod link;
pub mod memtable;
pub mod node;
pub mod queue;
pub mod search;
pub mod select;
pub mod storage;
pub mod vector;
