//! The four phases of the search as interfaces that can be implemented
//! independently of one another.
//!
//! Each interface names what a caller has to establish before the phase may
//! run; what the phase achieves is stated by the implementation.

use vstd::prelude::*;
use crate::node::NodeRef;
use crate::scoring::accepts_all;
use crate::state::State;

verus! {

/// Chooses the node from which the next playout starts.
pub trait SelectionStrategy<T, S> where S: State<T>, T: Clone {
    /// What must hold before `select` is called.
    spec fn can_select(&self) -> bool;

    /// Selects a node under the scoring function `uct`, or nothing if no
    /// node can be selected.
    fn select<F: Fn(i128, u32, u32, i64) -> Option<i64>>(
        &self,
        uct: &F,
    ) -> (leaf: Option<NodeRef>)
        requires
            self.can_select(),
            accepts_all(*uct),
    ;
}

/// Adds children to a node.
pub trait ExpansionStrategy<T, S> where S: State<T>, T: Clone {
    /// What must hold before `expand` is called on `node`.
    spec fn can_expand(&self, node: NodeRef) -> bool;

    /// Expands `node` and returns one of its children, or nothing if it has
    /// none.
    fn expand(&mut self, node: NodeRef) -> (child: Option<NodeRef>)
        requires
            old(self).can_expand(node),
    ;
}

/// Adds children to a node in an order of the implementation's choosing.
pub trait RandomExpansionStrategy<T, S> where S: State<T>, T: Clone {
    /// What must hold before `expand` is called on `node`.
    spec fn can_expand(&self, node: NodeRef) -> bool;

    /// Expands `node` and returns one of its children, or nothing if it has
    /// none.
    fn expand(&mut self, node: NodeRef) -> (child: Option<NodeRef>)
        requires
            old(self).can_expand(node),
    ;
}

/// Estimates the value of a node by playing its state out.
pub trait SimulationStrategy<T, S> where S: State<T>, T: Clone {
    /// What must hold before `simulate` is called on `node`.
    spec fn can_simulate(&self, node: NodeRef) -> bool;

    /// Plays out from `node` and returns the reward collected.
    fn simulate(&self, node: NodeRef) -> (reward: i64)
        requires
            self.can_simulate(node),
    ;
}

/// Carries the value of a playout back up the tree.
pub trait BackpropagationStrategy<T, S> where S: State<T>, T: Clone {
    /// What must hold before `value` is propagated from `node`.
    spec fn can_backpropagate(&self, node: NodeRef, value: i64) -> bool;

    /// Propagates `value` from `node` towards the root.
    fn backpropagate(&mut self, node: NodeRef, value: i64)
        requires
            old(self).can_backpropagate(node, value),
    ;
}

} // verus!
