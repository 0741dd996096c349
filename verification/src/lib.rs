//! Memory tiles for agents: typed, timestamped, importance-weighted records
//! kept in a capacity-bounded store, linked in a weighted graph, searched by
//! structured queries and merged during consolidation.
//!
//! Importance values, decay rates and connection strengths are fixed-point
//! numbers: `fixed::UNIT` stands for 1.0.

mod clock;
pub mod consolidator;
pub mod fixed;
pub mod graph;
pub mod laws;
pub mod metadata;
pub mod order;
pub mod query;
pub mod search;
pub mod store;
pub mod text;
pub mod tile;
pub mod tile_type;

pub use consolidator::MemoryConsolidator;
pub use fixed::UNIT;
pub use graph::MemoryGraph;
pub use metadata::Metadata;
pub use query::MemoryQuery;
pub use store::MemoryStore;
pub use tile::MemoryTile;
pub use tile_type::TileType;
