//! Hierarchical navigable small-world graphs for approximate nearest-neighbour
//! search over a fixed corpus.
//!
//! Elements are known to this crate only by their index in `[0, N)` and by a
//! caller-supplied distance function that yields unsigned integer magnitudes.
//! The crate builds the layered proximity graph, searches it, and encodes it
//! to and from a flat byte image.
//!
//! - `node`: the bounded neighbour list of one element.
//! - `metric`: distance functions and what is asked of them.
//! - `heap`: the bounded result heap and the frontier of a traversal.
//! - `traversal`: best-first search of a layer and descent through layers.
//! - `link`: the rule by which a node takes or refuses a neighbour.
//! - `builder`: insertion of elements and construction of all layers.
//! - `index`: the query view of a graph.
//! - `codec`: the byte image of a graph.
//! - `laws`, `exhaustive`: what holds of every graph built, saved, loaded
//!   and searched.

pub mod builder;
pub mod codec;
pub mod error;
pub mod exhaustive;
pub mod heap;
pub mod index;
pub mod laws;
pub mod link;
pub mod metric;
pub mod node;
pub mod traversal;

pub use builder::{Config, HnswBuilder};
pub use error::Error;
pub use heap::MaxSizeHeap;
pub use index::Hnsw;
pub use node::HnswNode;
