//! What holds of the model: the laws of the tree and of the phases of the
//! search, each proved from the definitions.

use vstd::prelude::*;
use crate::model::{fresh, TreeView};
use crate::node::{NodeRef, NodeView};
use crate::scoring::{lemma_pick_in_range, lemma_pick_prefers_unvisited, pick, Key};
use crate::state::{untried, State};

verus! {

impl<T, S> TreeView<T, S> {
    /// In a well-formed tree every node but the root has a parent in the
    /// tree, and that parent lists the node among its children exactly
    /// once.
    pub proof fn lemma_parent_lists_child_once(self, id: NodeRef)
        requires
            self.wf(),
            self.contains(id),
            id != 0,
        ensures
            self.parent_of(id) is Some,
            self.contains(self.parent_of(id)->0),
            ({
                let siblings = self.node(self.parent_of(id)->0).children;
                exists|i: int|
                    {
                        &&& 0 <= i < siblings.len()
                        &&& #[trigger] siblings[i] == id
                        &&& forall|j: int|
                            0 <= j < siblings.len() && #[trigger] siblings[j] == id ==> j == i
                    }
            }),
    {
        assert(self.attached(id));
        let p = self.node(id).parent->0;
        assert(self.owns_children(p));
        let siblings = self.node(p).children;
        let i = choose|i: int| 0 <= i < siblings.len() && siblings[i] == id;
        assert forall|j: int| 0 <= j < siblings.len() && #[trigger] siblings[j] == id implies j
            == i by {
            if j < i {
                assert(siblings[j] < siblings[i]);
            } else if i < j {
                assert(siblings[i] < siblings[j]);
            }
        }
    }

    /// Selection prefers an unvisited child over any visited sibling,
    /// whatever the scoring function says: where a node has an unvisited
    /// child, the first of them is chosen.
    pub proof fn lemma_chosen_child_prefers_unvisited(self, id: NodeRef, key: Key)
        requires
            exists|i: int|
                0 <= i < self.node(id).children.len() && self.node(
                    #[trigger] self.node(id).children[i],
                ).visits == 0,
        ensures
            0 <= pick(self.candidates(id, key)) < self.node(id).children.len(),
            self.node(self.chosen_child(id, key)).visits == 0,
            forall|j: int|
                0 <= j < pick(self.candidates(id, key)) ==> self.node(
                    #[trigger] self.node(id).children[j],
                ).visits != 0,
    {
        let children = self.node(id).children;
        let candidates = self.candidates(id, key);
        let i = choose|i: int|
            0 <= i < children.len() && self.node(#[trigger] children[i]).visits == 0;
        assert(candidates[i].0 == 0);
        lemma_pick_prefers_unvisited(candidates);
        assert forall|j: int| 0 <= j < pick(candidates) implies self.node(#[trigger] children[j]).visits
            != 0 by {
            assert(candidates[j].0 != 0);
        }
    }

    /// From any node of a well-formed tree, selection ends at a leaf of the
    /// tree; and if every node on the way to the starting node honours the
    /// preference for unvisited nodes, so does every node on the way to
    /// that leaf.
    pub proof fn lemma_descend_reaches_leaf(self, id: NodeRef, key: Key)
        requires
            self.wf(),
            self.contains(id),
            forall|a: NodeRef| self.ancestor_or_self(a, id) ==> #[trigger] self.favoured(a),
        ensures
            self.contains(self.descend(id, key)),
            self.node(self.descend(id, key)).children.len() == 0,
            forall|a: NodeRef|
                self.ancestor_or_self(a, self.descend(id, key)) ==> #[trigger] self.favoured(a),
        decreases self.nodes.len() - id,
    {
        let children = self.node(id).children;
        if children.len() > 0 {
            let candidates = self.candidates(id, key);
            let next = self.chosen_child(id, key);
            lemma_pick_in_range(candidates);
            assert(self.owns_children(id));
            if exists|i: int|
                0 <= i < children.len() && self.node(#[trigger] children[i]).visits == 0 {
                self.lemma_chosen_child_prefers_unvisited(id, key);
            }
            self.lemma_descend_reaches_leaf(next, key);
        }
    }

    /// Selection from the root of a well-formed tree ends at a leaf, and on
    /// the way there it never passes a visited node where an unvisited
    /// sibling was to be had.
    pub proof fn lemma_select_reaches_leaf(self, key: Key)
        requires
            self.wf(),
        ensures
            self.contains(self.select(key)),
            self.node(self.select(key)).children.len() == 0,
            forall|a: NodeRef|
                self.ancestor_or_self(a, self.select(key)) ==> #[trigger] self.favoured(a),
    {
        self.lemma_descend_reaches_leaf(0, key);
    }

    /// A tree of the shape of a well-formed tree is well-formed.
    pub proof fn lemma_same_shape_wf(self, other: Self)
        requires
            self.wf(),
            self.same_shape(other),
        ensures
            other.wf(),
    {
        assert forall|n: NodeRef| 0 < n < other.nodes.len() implies #[trigger] other.attached(n) by {
            assert(self.attached(n));
        }
        assert forall|n: NodeRef| n < other.nodes.len() implies #[trigger] other.owns_children(n) by {
            assert(self.owns_children(n));
            assert(other.node(n).children == self.node(n).children);
        }
    }

    /// Replacing a node by one with the same parent and the same children
    /// leaves a well-formed tree well-formed, whatever else the new node
    /// holds.
    pub proof fn lemma_replaced_wf(self, id: NodeRef, node: NodeView<T, S>)
        requires
            self.wf(),
            self.contains(id),
            node.parent == self.node(id).parent,
            node.children == self.node(id).children,
        ensures
            self.replaced(id, node).wf(),
    {
        self.lemma_same_shape_wf(self.replaced(id, node));
    }

    /// An ancestor was created before its descendants.
    pub proof fn lemma_ancestor_is_older(self, a: NodeRef, node: NodeRef)
        requires
            self.ancestor_or_self(a, node),
        ensures
            a <= node,
        decreases node,
    {
        if a != node {
            self.lemma_ancestor_is_older(a, self.parent_of(node)->0);
        }
    }

    /// In a well-formed tree the root is an ancestor of every node.
    pub proof fn lemma_root_is_ancestor(self, node: NodeRef)
        requires
            self.wf(),
            self.contains(node),
        ensures
            self.ancestor_or_self(0, node),
        decreases node,
    {
        if node != 0 {
            assert(self.attached(node));
            self.lemma_root_is_ancestor(self.node(node).parent->0);
        }
    }

    /// Which nodes lie on the way to the root does not depend on the
    /// statistics: it is the same in every tree of the same shape.
    pub proof fn lemma_same_shape_ancestors(self, other: Self, a: NodeRef, node: NodeRef)
        requires
            self.same_shape(other),
            self.contains(node),
        ensures
            other.ancestor_or_self(a, node) == self.ancestor_or_self(a, node),
        decreases node,
    {
        match self.parent_of(node) {
            Some(p) if p < node => {
                self.lemma_same_shape_ancestors(other, a, p);
            },
            _ => {},
        }
    }

    /// What propagation changes: at `node` and at each of its ancestors the
    /// visits grow by exactly one and the total reward by exactly `value`;
    /// every other node, and the shape of the tree, stay as they were.
    pub proof fn lemma_backpropagate(self, node: NodeRef, value: int)
        requires
            self.contains(node),
        ensures
            self.same_shape(self.backpropagate(node, value)),
            self.grows_into(self.backpropagate(node, value)),
            self.wf() ==> self.backpropagate(node, value).wf(),
            forall|id: NodeRef|
                id < self.nodes.len() ==> (#[trigger] self.backpropagate(node, value).node(id)).visits
                    == self.node(id).visits + if self.ancestor_or_self(id, node) {
                    1nat
                } else {
                    0nat
                },
            forall|id: NodeRef|
                id < self.nodes.len() ==> (#[trigger] self.backpropagate(
                    node,
                    value,
                ).node(id)).total_reward == self.node(id).total_reward + if self.ancestor_or_self(
                    id,
                    node,
                ) {
                    value
                } else {
                    0
                },
        decreases node,
    {
        let counted = self.credited(node, value);
        let after = self.backpropagate(node, value);
        match self.parent_of(node) {
            Some(p) if p < node => {
                counted.lemma_backpropagate(p, value);
                assert forall|id: NodeRef| id < self.nodes.len() implies {
                    &&& (#[trigger] after.node(id)).visits == self.node(id).visits
                        + if self.ancestor_or_self(id, node) {
                        1nat
                    } else {
                        0nat
                    }
                    &&& after.node(id).total_reward == self.node(id).total_reward
                        + if self.ancestor_or_self(id, node) {
                        value
                    } else {
                        0
                    }
                    &&& after.node(id).parent == self.node(id).parent
                    &&& after.node(id).children == self.node(id).children
                    &&& after.node(id).action == self.node(id).action
                    &&& after.node(id).state == self.node(id).state
                    &&& after.node(id).expanded == self.node(id).expanded
                } by {
                    self.lemma_same_shape_ancestors(counted, id, p);
                    if self.ancestor_or_self(id, p) {
                        self.lemma_ancestor_is_older(id, p);
                    }
                }
            },
            _ => {},
        }
        if self.wf() {
            self.lemma_same_shape_wf(after);
        }
    }

    /// Attaching a childless node to a well-formed tree leaves it
    /// well-formed.
    pub proof fn lemma_add_node_wf(self, node: NodeView<T, S>, parent: NodeRef)
        requires
            self.wf(),
            self.contains(parent),
            self.nodes.len() < usize::MAX,
            node.children.len() == 0,
        ensures
            self.add_node(node, parent).wf(),
    {
        let after = self.add_node(node, parent);
        let id = self.nodes.len() as NodeRef;
        assert forall|n: NodeRef| 0 < n < after.nodes.len() implies #[trigger] after.attached(n) by {
            if n == id {
                assert(after.node(parent).children.last() == id);
            } else {
                assert(self.attached(n));
                let p = self.node(n).parent->0;
                if p == parent {
                    let listed = self.node(p).children;
                    let i = choose|i: int| 0 <= i < listed.len() && listed[i] == n;
                    assert(after.node(p).children[i] == n);
                }
            }
        }
        assert forall|n: NodeRef| n < after.nodes.len() implies #[trigger] after.owns_children(n) by {
            if n != id {
                assert(self.owns_children(n));
            }
        }
    }
}

impl<T, S: State<T>> TreeView<T, S> {
    /// What growing a tree changes: one new node per action is appended to
    /// the arena and to the children of `leaf`, each without statistics and
    /// with `leaf` as its parent; every other node stays as it was, and the
    /// tree stays well-formed.
    pub proof fn lemma_grown(self, leaf: NodeRef, origin: S, actions: Seq<T>)
        requires
            self.wf(),
            self.contains(leaf),
            self.nodes.len() + actions.len() <= usize::MAX,
        ensures
            self.grown(leaf, origin, actions).wf(),
            self.grown(leaf, origin, actions).learning_rate == self.learning_rate,
            self.grown(leaf, origin, actions).nodes.len() == self.nodes.len() + actions.len(),
            forall|id: NodeRef|
                id < self.nodes.len() && id != leaf ==> #[trigger] self.grown(
                    leaf,
                    origin,
                    actions,
                ).node(id) == self.node(id),
            self.grown(leaf, origin, actions).node(leaf) == (NodeView {
                children: self.node(leaf).children + Seq::new(
                    actions.len(),
                    |i: int| (self.nodes.len() + i) as NodeRef,
                ),
                ..self.node(leaf)
            }),
            forall|id: NodeRef|
                self.nodes.len() <= id < self.nodes.len() + actions.len() ==> #[trigger] self.grown(
                    leaf,
                    origin,
                    actions,
                ).node(id) == (NodeView {
                    parent: Some(leaf),
                    ..fresh(
                        actions[id - self.nodes.len()],
                        origin.successor(&actions[id - self.nodes.len()]),
                    )
                }),
        decreases actions.len(),
    {
        let len = self.nodes.len();
        if actions.len() > 0 {
            let front = actions.drop_last();
            let before = self.grown(leaf, origin, front);
            let added = fresh(actions.last(), origin.successor(&actions.last()));
            let after = before.add_node(added, leaf);
            self.lemma_grown(leaf, origin, front);
            before.lemma_add_node_wf(added, leaf);
            assert(before.node(leaf).children.push((len + front.len()) as NodeRef)
                =~= self.node(leaf).children + Seq::new(
                actions.len(),
                |i: int| (len + i) as NodeRef,
            ));
            assert forall|id: NodeRef| id < len && id != leaf implies #[trigger] after.node(id)
                == self.node(id) by {
                assert(before.node(id) == self.node(id));
            }
            assert forall|id: NodeRef| len <= id < len + actions.len() implies #[trigger] after.node(
                id,
            ) == (NodeView {
                parent: Some(leaf),
                ..fresh(actions[id - len], origin.successor(&actions[id - len]))
            }) by {
                if id < len + front.len() {
                    assert(after.node(id) == before.node(id));
                }
            }
        }
    }

    /// What expansion changes, for a leaf whose state has `N` untried
    /// actions: exactly `N` nodes are added, each of them a child of the
    /// leaf without visits and without reward, one for each untried action
    /// in the order in which the state proposes them.
    pub proof fn lemma_expand(self, leaf: NodeRef)
        requires
            self.wf(),
            self.contains(leaf),
            self.nodes.len() + untried(self.node(leaf).state).len() <= usize::MAX,
        ensures
            self.expand(leaf).wf(),
            self.grows_into(self.expand(leaf)),
            self.expand(leaf).learning_rate == self.learning_rate,
            self.expand(leaf).nodes.len() == self.nodes.len() + untried(self.node(leaf).state).len(),
            forall|id: NodeRef|
                id < self.nodes.len() && id != leaf ==> #[trigger] self.expand(leaf).node(id)
                    == self.node(id),
            self.expand(leaf).node(leaf) == (NodeView {
                children: self.node(leaf).children + Seq::new(
                    untried(self.node(leaf).state).len(),
                    |i: int| (self.nodes.len() + i) as NodeRef,
                ),
                ..self.node(leaf)
            }),
            forall|id: NodeRef|
                self.nodes.len() <= id < self.expand(leaf).nodes.len() ==> {
                    let action = untried(self.node(leaf).state)[id - self.nodes.len()];
                    let child = #[trigger] self.expand(leaf).node(id);
                    &&& child.action == action
                    &&& child.state == self.node(leaf).state.successor(&action)
                    &&& child.visits == 0
                    &&& child.total_reward == 0
                    &&& child.children.len() == 0
                    &&& child.parent == Some(leaf)
                    &&& self.expand(leaf).parent_of(id) == Some(leaf)
                },
    {
        let state = self.node(leaf).state;
        assert(self.expand(leaf) == self.grown(leaf, state, untried(state)));
        self.lemma_grown(leaf, state, untried(state));
    }
}

} // verus!
