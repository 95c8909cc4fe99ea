//! Statistics over a tangle: a directed acyclic graph in which every record
//! refers to two earlier records, rooted at a genesis node.
//!
//! A [`Graph`] is built from a textual description with [`Graph::parse`], or
//! node by node with [`Graph::add_node`] and [`Graph::link`]. It then answers
//! for the depth of its nodes, the number of its leaves, and three means, each
//! of them returned exact as an [`Average`].

pub mod depth;
pub mod error;
pub mod graph;
pub mod node;
pub mod parse;
pub mod stats;
pub mod text;

pub use error::GraphError;
pub use graph::Graph;
pub use node::Node;
pub use stats::Average;
