//! The mathematical model of a search tree: what a tree is and what each
//! phase of the search makes of it.

use vstd::prelude::*;
use crate::node::{NodeRef, NodeView};
use crate::scoring::{first_max, pick, Candidate, Key};
use crate::state::{rollout, untried, State};

verus! {

/// The mathematical content of a tree: its arena of nodes, the root at
/// position 0, and the two values kept beside it.
pub struct TreeView<T, S> {
    /// The nodes, in the order in which they were created.
    pub nodes: Seq<NodeView<T, S>>,
    /// The exploration constant handed to the scoring function.
    pub learning_rate: int,
    /// The number of nodes ever added, the root included.
    pub size: nat,
}

/// A node as expansion creates it, before it is attached.
pub open spec fn fresh<T, S>(action: T, state: S) -> NodeView<T, S> {
    NodeView {
        action,
        state,
        visits: 0,
        total_reward: 0,
        expanded: false,
        children: Seq::empty(),
        parent: None,
    }
}

impl<T, S> NodeView<T, S> {
    /// The parent link, as far as it addresses a node of an arena of
    /// `len` nodes. A link that addresses nothing counts as no parent.
    pub open spec fn resolved_parent(self, len: nat) -> Option<NodeRef> {
        match self.parent {
            Some(p) if p < len => Some(p),
            _ => None,
        }
    }

    /// The score of the node under the scoring function `key` and the
    /// exploration constant `c`: zero for a node without a parent,
    /// otherwise what `key` makes of the node's statistics and its parent's
    /// visits.
    pub open spec fn score(self, tree: TreeView<T, S>, c: int, key: Key) -> Option<int> {
        match self.resolved_parent(tree.nodes.len()) {
            None => Some(0),
            Some(p) => key(self.total_reward, self.visits, tree.node(p).visits, c),
        }
    }

    /// The total rewards of the children, in their order.
    pub open spec fn child_rewards(self, tree: TreeView<T, S>) -> Seq<int> {
        Seq::new(self.children.len(), |i: int| tree.node(self.children[i]).total_reward)
    }

    /// The child with the greatest total reward, the earliest of several;
    /// nothing for a node without children.
    pub open spec fn best_child(self, tree: TreeView<T, S>) -> Option<NodeRef> {
        if self.children.len() == 0 {
            None
        } else {
            Some(self.children[first_max(self.child_rewards(tree))])
        }
    }
}

impl<T, S> TreeView<T, S> {
    /// Whether `id` addresses a node of this tree.
    pub open spec fn contains(self, id: NodeRef) -> bool {
        id < self.nodes.len()
    }

    /// The node that `id` addresses.
    pub open spec fn node(self, id: NodeRef) -> NodeView<T, S> {
        self.nodes[id as int]
    }

    /// The resolved parent of the node that `id` addresses.
    pub open spec fn parent_of(self, id: NodeRef) -> Option<NodeRef> {
        self.node(id).resolved_parent(self.nodes.len())
    }

    /// A node other than the root is attached: it has a parent, created
    /// before it, that lists it among its children.
    pub open spec fn attached(self, id: NodeRef) -> bool {
        match self.node(id).parent {
            Some(p) => p < id && self.node(p).children.contains(id),
            None => false,
        }
    }

    /// The children of a node are nodes of the tree created after it, each
    /// of them records the node as its parent, and they are listed in the
    /// order of their creation, so none is listed twice.
    pub open spec fn owns_children(self, id: NodeRef) -> bool {
        let children = self.node(id).children;
        &&& forall|i: int|
            0 <= i < children.len() ==> id < #[trigger] children[i] < self.nodes.len()
                && self.node(children[i]).parent == Some(id)
        &&& forall|i: int, j: int|
            0 <= i < j < children.len() ==> #[trigger] children[i] < #[trigger] children[j]
    }

    /// Well-formedness: the arena holds a proper tree rooted at position 0,
    /// and `size` counts its nodes.
    pub open spec fn wf(self) -> bool {
        &&& self.nodes.len() > 0
        &&& self.size == self.nodes.len()
        &&& self.node(0).parent is None
        &&& forall|id: NodeRef| 0 < id < self.nodes.len() ==> #[trigger] self.attached(id)
        &&& forall|id: NodeRef| id < self.nodes.len() ==> #[trigger] self.owns_children(id)
    }

    /// What the children of a node show to the choice among them.
    pub open spec fn candidates(self, id: NodeRef, key: Key) -> Seq<Candidate> {
        let children = self.node(id).children;
        Seq::new(
            children.len(),
            |i: int|
                (
                    self.node(children[i]).visits,
                    self.node(children[i]).score(self, self.learning_rate, key),
                ),
        )
    }

    /// The child of a node into which selection descends.
    pub open spec fn chosen_child(self, id: NodeRef, key: Key) -> NodeRef {
        self.node(id).children[pick(self.candidates(id, key))]
    }

    /// Whether the child at position `k` is a choice that honours the
    /// preference for unvisited nodes among the first `n` children of `id`:
    /// if any of them is unvisited, the child at `k` is the first such.
    pub open spec fn prefers_unvisited(self, id: NodeRef, k: int, n: int) -> bool {
        let children = self.node(id).children;
        &&& 0 <= k < n <= children.len()
        &&& (exists|i: int| 0 <= i < n && self.node(#[trigger] children[i]).visits == 0) ==> {
            &&& self.node(children[k]).visits == 0
            &&& forall|j: int| 0 <= j < k ==> self.node(#[trigger] children[j]).visits != 0
        }
    }

    /// Whether the node `id` is one that selection may pass through: it is
    /// the root, or among the children of its parent it honours the
    /// preference for unvisited nodes.
    pub open spec fn favoured(self, id: NodeRef) -> bool {
        match self.parent_of(id) {
            None => true,
            Some(p) => exists|k: int|
                0 <= k < self.node(p).children.len() && #[trigger] self.node(p).children[k] == id
                    && self.prefers_unvisited(p, k, self.node(p).children.len() as int),
        }
    }

    /// The leaf that selection reaches from `id`: at every node with
    /// children it descends into the chosen child.
    pub open spec fn descend(self, id: NodeRef, key: Key) -> NodeRef
        decreases self.nodes.len() - id,
    {
        if id < self.nodes.len() && self.node(id).children.len() > 0 {
            let next = self.chosen_child(id, key);
            if id < next < self.nodes.len() {
                self.descend(next, key)
            } else {
                id
            }
        } else {
            id
        }
    }

    /// The leaf that selection reaches from the root.
    pub open spec fn select(self, key: Key) -> NodeRef {
        self.descend(0, key)
    }

    /// The tree after one playout of value `value` has been counted at the
    /// node `id` alone.
    pub open spec fn credited(self, id: NodeRef, value: int) -> Self {
        let node = self.node(id);
        TreeView {
            nodes: self.nodes.update(
                id as int,
                NodeView {
                    visits: node.visits + 1,
                    total_reward: node.total_reward + value,
                    ..node
                },
            ),
            ..self
        }
    }

    /// The tree after `value` has been propagated from `node` to the root:
    /// the playout is counted at `node`, then at its parent, and so on up
    /// to the node without a parent.
    pub open spec fn backpropagate(self, node: NodeRef, value: int) -> Self
        decreases node,
    {
        let counted = self.credited(node, value);
        match self.parent_of(node) {
            Some(p) if p < node => counted.backpropagate(p, value),
            _ => counted,
        }
    }

    /// Whether `a` is `node` itself or lies on the way from `node` to the
    /// root.
    pub open spec fn ancestor_or_self(self, a: NodeRef, node: NodeRef) -> bool
        decreases node,
    {
        a == node || match self.parent_of(node) {
            Some(p) if p < node => self.ancestor_or_self(a, p),
            _ => false,
        }
    }

    /// Whether the statistics of `node` and of all its ancestors have room
    /// for one more playout of value `value`: no counter of visits is at
    /// its limit, and no total reward would leave the range of 128 bits.
    pub open spec fn can_credit(self, node: NodeRef, value: int) -> bool {
        forall|a: NodeRef|
            self.contains(a) && #[trigger] self.ancestor_or_self(a, node) ==> {
                &&& self.node(a).visits < u32::MAX
                &&& i128::MIN <= self.node(a).total_reward + value <= i128::MAX
            }
    }

    /// Whether `other` has the shape of this tree: as many nodes, and at
    /// every node the same parent and the same children.
    pub open spec fn same_shape(self, other: Self) -> bool {
        &&& other.nodes.len() == self.nodes.len()
        &&& other.size == self.size
        &&& other.learning_rate == self.learning_rate
        &&& forall|id: NodeRef|
            id < self.nodes.len() ==> {
                &&& (#[trigger] other.node(id)).parent == self.node(id).parent
                &&& other.node(id).children == self.node(id).children
            }
    }

    /// The tree with `node` in the place of the node that `id` addresses.
    pub open spec fn replaced(self, id: NodeRef, node: NodeView<T, S>) -> Self {
        TreeView { nodes: self.nodes.update(id as int, node), ..self }
    }

    /// Whether the statistics of every node have room for `rounds` more
    /// playouts, each of a value that fits in 64 bits.
    pub open spec fn headroom(self, rounds: nat) -> bool {
        forall|id: NodeRef|
            id < self.nodes.len() ==> {
                &&& (#[trigger] self.node(id)).visits + rounds <= u32::MAX
                &&& i128::MIN <= self.node(id).total_reward - rounds * 0x8000_0000_0000_0000
                &&& self.node(id).total_reward + rounds * 0x8000_0000_0000_0000 <= i128::MAX
            }
    }

    /// Whether `later` is this tree grown: every node of this tree is still
    /// there with its action, state and parent, has kept its children in
    /// their places before any new ones, and has lost no visit.
    pub open spec fn grows_into(self, later: Self) -> bool {
        &&& self.nodes.len() <= later.nodes.len()
        &&& self.learning_rate == later.learning_rate
        &&& forall|id: NodeRef|
            id < self.nodes.len() ==> {
                &&& (#[trigger] later.node(id)).action == self.node(id).action
                &&& later.node(id).state == self.node(id).state
                &&& later.node(id).parent == self.node(id).parent
                &&& later.node(id).expanded == self.node(id).expanded
                &&& self.node(id).children.is_prefix_of(later.node(id).children)
                &&& self.node(id).visits <= later.node(id).visits
            }
    }

    /// The tree after `node` has been attached as the newest child of
    /// `parent`.
    pub open spec fn add_node(self, node: NodeView<T, S>, parent: NodeRef) -> Self {
        let id = self.nodes.len() as NodeRef;
        let above = self.node(parent);
        TreeView {
            nodes: self.nodes.update(
                parent as int,
                NodeView { children: above.children.push(id), ..above },
            ).push(NodeView { parent: Some(parent), ..node }),
            learning_rate: self.learning_rate,
            size: self.size + 1,
        }
    }
}

impl<T, S: State<T>> TreeView<T, S> {
    /// The tree after one child has been attached to `leaf` for each of
    /// `actions`, in their order. The state of each child is `origin`
    /// advanced by the child's action alone.
    pub open spec fn grown(self, leaf: NodeRef, origin: S, actions: Seq<T>) -> Self
        decreases actions.len(),
    {
        if actions.len() == 0 {
            self
        } else {
            self.grown(leaf, origin, actions.drop_last()).add_node(
                fresh(actions.last(), origin.successor(&actions.last())),
                leaf,
            )
        }
    }

    /// The tree after `leaf` has been expanded: every untried action of its
    /// state has become a child.
    pub open spec fn expand(self, leaf: NodeRef) -> Self {
        self.grown(leaf, self.node(leaf).state, untried(self.node(leaf).state))
    }

    /// The node from which a round plays out once selection has reached
    /// `leaf`: a leaf never visited before is played out itself; a visited
    /// one is expanded first, and its first child is played out, if it got
    /// one.
    pub open spec fn playout_start(self, leaf: NodeRef) -> NodeRef {
        if self.node(leaf).visits > 0 && self.expand(leaf).node(leaf).children.len() > 0 {
            self.expand(leaf).node(leaf).children[0]
        } else {
            leaf
        }
    }

    /// The tree after one round of the search from the leaf that selection
    /// reached: expansion if the leaf had been visited, then a playout, then
    /// the propagation of its value.
    pub open spec fn round_from(self, leaf: NodeRef) -> Self {
        let grown = if self.node(leaf).visits > 0 {
            self.expand(leaf)
        } else {
            self
        };
        let start = self.playout_start(leaf);
        grown.backpropagate(start, rollout(grown.node(start).state))
    }

    /// The tree after one round of the search under the scoring function
    /// `key`.
    pub open spec fn round(self, key: Key) -> Self {
        self.round_from(self.select(key))
    }

    /// The tree after `rounds` rounds of the search.
    pub open spec fn search(self, rounds: nat, key: Key) -> Self
        decreases rounds,
    {
        if rounds == 0 {
            self
        } else {
            self.search((rounds - 1) as nat, key).round(key)
        }
    }
}

} // verus!
