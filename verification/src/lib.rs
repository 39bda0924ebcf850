//! A recursive tree model of a formatted document body, together with a
//! positional tree-diff algorithm, an in-place patch applier, and the
//! scalar-sequence text diff used at textual leaves.

pub mod apply;
pub mod diff;
pub mod laws;
pub mod node;
pub mod patch;
pub mod text_patch;

pub use node::Command;
pub use node::Embed;
pub use node::EmbedProvider;
pub use node::Node;
pub use node::PendingNode;
