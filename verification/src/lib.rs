//! A typed, acyclic computation graph of texture transformers that caches the value of
//! each node and forgets exactly the values that an edit may have made stale.

pub mod editor;
pub mod error;
pub mod graph;
pub mod index;
pub mod laws;
pub mod pattern;
pub mod relation;
pub mod store;
pub mod transformer;
pub mod wiring;

pub use crate::editor::{AllMyNodeTemplates, MyDataType, MyNodeData, MyNodeTemplate};
pub use crate::error::GraphError;
pub use crate::graph::TextureGraph;
pub use crate::index::NodeIndex;
pub use crate::pattern::{GeneratorProperties, GradientNodeDirection, LinesPosition};
pub use crate::transformer::{Node, TextureTransformer};
