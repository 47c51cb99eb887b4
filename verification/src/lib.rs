//! A generational transform hierarchy.
//!
//! Every node of the hierarchy carries a local transform and names its parent.
//! The nodes are kept in one flat sequence, generation after generation: first
//! the root, then its children, then their children, and so on. A table says
//! where each generation lies. With this layout the parent of a node is always
//! stored before the node, so the world matrix of every node can be resolved in
//! one forward pass, without recursion.
//!
//! The hierarchy does not fix the representation of a transform or of a matrix:
//! it stores values of any type `T` and composes matrices of any type `M` through
//! two operations that the caller supplies, one that turns a local transform into
//! a matrix and one that multiplies two matrices.
//!
//! * [`id`] holds the address of a node.
//! * [`layout`] describes the generation table.
//! * [`hierarchy`] is the model that the contracts speak of.
//! * [`deltas`] holds the store of local transforms, [`positions`] the flattened
//!   snapshot.
//! * [`laws`] states what holds of every hierarchy.

pub mod id;
pub mod layout;
pub mod hierarchy;
pub mod deltas;
pub mod positions;
pub mod laws;

pub use deltas::{Delta, Deltas};
pub use hierarchy::{Hierarchy, Node, Snapshot};
pub use id::Id;
pub use layout::Span;
pub use positions::Positions;
