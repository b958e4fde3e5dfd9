//! Sharded extraction, filtering, collaboration-graph and statistics logic
//! for a corpus of scholarly author and work records.
pub mod json;
pub mod text;
pub mod shard;
pub mod work;
pub mod edges;
pub mod graph;
pub mod weights;
pub mod tally;
pub mod stats;
pub mod authors;
pub mod filter;
pub mod corpus;
