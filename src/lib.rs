//! Picks a resolution path through a graph of candidate dependency versions.
//!
//! Each candidate is ranked by a blend of community votes, artifact confidence
//! and how desirable its version is; the resolver then walks the graph from a
//! start node, greedily following the best-ranked child.
//!
//! Scores are fixed-point integers: `SCALE` stands for 1.0, and each score is
//! rounded down to a whole multiple of `1 / SCALE`.

mod keyed;
mod text;

pub mod graph;
pub mod resolve;
pub mod score;
pub mod version;

pub use graph::{Graph, GraphView};
pub use score::{Node, Vote};
pub use version::Version;
