//! Monte Carlo tree search over a caller-defined domain.
//!
//! The search tree lives in an arena: every node is addressed by its index,
//! and the links between parents and children are indices too. The domain
//! enters through the [`state::State`] trait. Rewards are integers, in a
//! fixed-point unit of the caller's choosing. The exploration formula needs
//! real-number arithmetic, so it is not computed here: the caller hands it
//! to the selection phase as a scoring function, and the library decides on
//! the scores that the function returns.
//!
//! - [`state`]: the contract of a domain state, and what a playout is.
//! - [`node`]: a node, its handle, and the operations on one node.
//! - [`scoring`]: scores, and the choice among scored children.
//! - [`strategies`]: the four phases of the search as interfaces.
//! - [`tree`]: the tree, its four phases and the search loop.
//! - [`model`]: the mathematical model that the contracts are stated over.
//! - [`laws`]: what holds of the model.

pub mod laws;
pub mod model;
pub mod node;
pub mod scoring;
pub mod state;
pub mod strategies;
pub mod tree;
