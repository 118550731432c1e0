//! Bounding volumes for hierarchical scenes: world-space boxes of the nodes
//! that carry geometry, folded into one enclosing record per scene root, with
//! a processed-marker ledger and a load-completion gate around the pass.
pub mod geometry;
pub mod aggregate;
pub mod scene;
pub mod ledger;
pub mod pass;
pub mod gate;
pub mod tick;
