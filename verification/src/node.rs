//! Tree nodes and the handles that address them.

use vstd::prelude::*;
use crate::model::fresh;
use crate::scoring::{computes, first_max, lemma_first_max, wide, Key};
use crate::state::State;
use crate::tree::Tree;

verus! {

/// A handle to a node: its index in the arena of the tree that owns it.
pub type NodeRef = usize;

/// The mathematical content of a node.
pub struct NodeView<T, S> {
    /// The action that led from the parent to this node.
    pub action: T,
    /// The domain state after that action.
    pub state: S,
    /// How many playouts have been propagated through the node.
    pub visits: nat,
    /// The sum of the rewards of those playouts.
    pub total_reward: int,
    /// Whether the node has been marked as expanded.
    pub expanded: bool,
    /// The children, oldest first.
    pub children: Seq<NodeRef>,
    /// The recorded parent link, if any.
    pub parent: Option<NodeRef>,
}

/// One vertex of the search tree.
///
/// A node holds handles, never other nodes: the children and the parent are
/// positions in the arena of the tree that owns the node.
#[derive(Clone, Debug)]
pub struct Node<T, S> where S: State<T>, T: Clone {
    /// The action that led from the parent to this node.
    pub action: T,
    /// The domain state after that action.
    pub state: S,
    /// How many playouts have been propagated through the node.
    pub visits: u32,
    /// The sum of the rewards of those playouts, wide enough for the sum of
    /// as many 64-bit playout values as `visits` can count.
    pub total_reward: i128,
    /// Whether the node has been marked as expanded. No phase of the search
    /// reads or writes it.
    pub expanded: bool,
    /// The children, oldest first.
    pub children: Vec<NodeRef>,
    /// The recorded parent link; `parent` resolves it against a tree.
    pub parent: Option<NodeRef>,
}

impl<T, S> View for Node<T, S> where S: State<T>, T: Clone {
    type V = NodeView<T, S>;

    open spec fn view(&self) -> NodeView<T, S> {
        NodeView {
            action: self.action,
            state: self.state,
            visits: self.visits as nat,
            total_reward: self.total_reward as int,
            expanded: self.expanded,
            children: self.children@,
            parent: self.parent,
        }
    }
}

impl<T, S> Node<T, S> where S: State<T>, T: Clone {
    /// Creates a node without statistics, parent or children.
    pub fn new(action: T, state: S) -> (node: Self)
        ensures
            node@ == fresh(action, state),
    {
        Self {
            action,
            state,
            visits: 0,
            total_reward: 0,
            expanded: false,
            children: Vec::new(),
            parent: None,
        }
    }

    /// The parent, as far as the recorded link addresses a node of `tree`;
    /// nothing for the root, and nothing for a link that addresses no node.
    pub fn parent(&self, tree: &Tree<T, S>) -> (parent: Option<NodeRef>)
        ensures
            parent == self@.resolved_parent(tree@.nodes.len()),
    {
        match self.parent {
            Some(p) => if p < tree.len() {
                Some(p)
            } else {
                None
            },
            None => None,
        }
    }

    /// Records `node` as the parent. The parent's own children are not
    /// touched.
    pub fn set_parent(&mut self, node: NodeRef)
        ensures
            final(self)@ == (NodeView { parent: Some(node), ..old(self)@ }),
    {
        self.parent = Some(node);
    }

    /// The child at position `index`, if there is one.
    pub fn child_at(&self, index: usize) -> (child: Option<NodeRef>)
        ensures
            child == if index < self@.children.len() {
                Some(self@.children[index as int])
            } else {
                None
            },
    {
        if self.children.len() > index {
            Some(self.children[index])
        } else {
            None
        }
    }

    /// The child with the greatest total reward, the earliest of several
    /// that share it; nothing for a node without children.
    pub fn best_child(&self, tree: &Tree<T, S>) -> (best: Option<NodeRef>)
        requires
            forall|i: int|
                0 <= i < self@.children.len() ==> tree@.contains(#[trigger] self@.children[i]),
        ensures
            best == self@.best_child(tree@),
            best is None <==> self@.children.len() == 0,
            best is Some ==> exists|i: int|
                {
                    &&& 0 <= i < self@.children.len()
                    &&& #[trigger] self@.children[i] == best->0
                    &&& forall|j: int|
                        0 <= j < self@.children.len() ==> tree@.node(
                            #[trigger] self@.children[j],
                        ).total_reward <= tree@.node(best->0).total_reward
                    &&& forall|j: int|
                        0 <= j < i ==> tree@.node(#[trigger] self@.children[j]).total_reward
                            < tree@.node(best->0).total_reward
                },
    {
        let n = self.children.len();
        if n == 0 {
            return None;
        }
        let ghost rewards = self@.child_rewards(tree@);
        let mut best: usize = 0;
        let mut best_reward: i128 = tree.node(self.children[0]).total_reward;
        let mut i: usize = 1;
        while i < n
            invariant
                n == self@.children.len(),
                rewards == self@.child_rewards(tree@),
                forall|k: int| 0 <= k < n ==> tree@.contains(#[trigger] self@.children[k]),
                1 <= i <= n,
                best == first_max(rewards.take(i as int)),
                0 <= best < i,
                best_reward == rewards[best as int],
            decreases n - i,
        {
            let reward = tree.node(self.children[i]).total_reward;
            proof {
                assert(rewards.take(i + 1).drop_last() =~= rewards.take(i as int));
            }
            if reward > best_reward {
                best = i;
                best_reward = reward;
            }
            i += 1;
        }
        proof {
            assert(rewards.take(n as int) =~= rewards);
            lemma_first_max(rewards);
            let b = best as int;
            assert forall|j: int| 0 <= j < n implies tree@.node(
                #[trigger] self@.children[j],
            ).total_reward <= tree@.node(self@.children[b]).total_reward by {
                assert(rewards[j] <= rewards[b]);
            }
            assert forall|j: int| 0 <= j < b implies tree@.node(
                #[trigger] self@.children[j],
            ).total_reward < tree@.node(self@.children[b]).total_reward by {
                assert(rewards[j] < rewards[b]);
            }
        }
        Some(self.children[best])
    }

    /// Appends `node` to the children and hands the handle back. Recording
    /// this node as the parent of `node` is left to the caller.
    pub fn add_child(&mut self, node: NodeRef) -> (child: NodeRef)
        ensures
            final(self)@ == (NodeView { children: old(self)@.children.push(node), ..old(self)@ }),
            child == node,
    {
        self.children.push(node);
        self.children[self.children.len() - 1]
    }

    /// The score of the node relative to its parent in `tree`: zero for a
    /// node without a parent, otherwise what the scoring function `uct`
    /// makes of the node's total reward, its visits, the parent's visits and
    /// the exploration constant `c`.
    pub fn score<F: Fn(i128, u32, u32, i64) -> Option<i64>>(
        &self,
        tree: &Tree<T, S>,
        c: i64,
        uct: &F,
    ) -> (score: Option<i64>)
        requires
            match self@.resolved_parent(tree@.nodes.len()) {
                Some(p) => call_requires(
                    *uct,
                    (self.total_reward, self.visits, tree@.node(p).visits as u32, c),
                ),
                None => true,
            },
        ensures
            match self@.resolved_parent(tree@.nodes.len()) {
                Some(p) => call_ensures(
                    *uct,
                    (self.total_reward, self.visits, tree@.node(p).visits as u32, c),
                    score,
                ),
                None => score == Some(0i64),
            },
            forall|key: Key| #[trigger]
                computes(*uct, key) ==> wide(score) == self@.score(tree@, c as int, key),
    {
        match self.parent(tree) {
            Some(p) => uct(self.total_reward, self.visits, tree.node(p).visits, c),
            None => Some(0),
        }
    }
}

} // verus!
