//! Enumeration of the shapes of rooted binary trees up to isomorphism.
//!
//! A sequencer produces raw shapes by advancing one shape like a counter under
//! a growing depth bound. Each raw shape is reduced to a canonical form, in
//! which the children of every node stand in the order of their identifiers.
//! The classifier emits each canonical form the first time it appears, and
//! numbers the forms in the order of their appearance.

pub mod advance;
pub mod canonical;
pub mod classifier;
pub mod isomorphism;
pub mod measure;
pub mod orbit;
pub mod sequencer;
pub mod table;
pub mod text;
pub mod tree;

pub use classifier::UniqueTreeIterator;
pub use sequencer::TreeIterator;
pub use table::IdentityTable;
pub use tree::Tree;
