//! The search tree and the four phases of the search.

use vstd::prelude::*;
use crate::model::{fresh, TreeView};
use crate::node::{Node, NodeRef, NodeView};
use crate::scoring::{accepts_all, computes, keeps_lead, pick, wide, Key};
use crate::state::{
    advanced, lemma_advanced_step, lemma_advanced_untried, lemma_rollout_bounds, rollout, untried,
    State,
};
use crate::strategies::{
    BackpropagationStrategy, ExpansionStrategy, SelectionStrategy, SimulationStrategy,
};

verus! {

/// A search tree: an arena of nodes with the root at position 0.
///
/// Nodes are only ever added, so a handle stays valid for as long as the
/// tree lives. The exploration constant is kept as given and handed to the
/// scoring function, which decides on its unit.
///
/// The operations of the tree ask for a well-formed tree and leave one
/// behind; whoever writes to the fields directly has to see to it.
#[derive(Clone, Debug)]
pub struct Tree<T, S> where S: State<T>, T: Clone {
    /// The arena: every node of the tree, in the order of creation.
    pub nodes: Vec<Node<T, S>>,
    /// The exploration constant.
    pub learning_rate: i64,
    /// The number of nodes ever added, the root included.
    pub size: usize,
}

impl<T, S> View for Tree<T, S> where S: State<T>, T: Clone {
    type V = TreeView<T, S>;

    open spec fn view(&self) -> TreeView<T, S> {
        TreeView {
            nodes: Seq::new(self.nodes@.len(), |i: int| self.nodes@[i]@),
            learning_rate: self.learning_rate as int,
            size: self.size as nat,
        }
    }
}

impl<T, S> Tree<T, S> where S: State<T>, T: Clone {
    /// Creates a tree whose only node is the root made of `action` and
    /// `state`.
    pub fn new(learning_rate: i64, action: T, state: S) -> (tree: Self)
        ensures
            tree@ == (TreeView {
                nodes: seq![fresh(action, state)],
                learning_rate: learning_rate as int,
                size: 1,
            }),
            tree@.wf(),
    {
        let mut nodes = Vec::new();
        nodes.push(Node::new(action, state));
        let tree = Self { nodes, learning_rate, size: 1 };
        proof {
            assert(tree@.nodes =~= seq![fresh(action, state)]);
        }
        tree
    }

    /// The handle of the root.
    pub fn root(&self) -> (root: NodeRef)
        ensures
            root == 0,
    {
        0
    }

    /// The number of nodes in the arena.
    pub fn len(&self) -> (len: usize)
        ensures
            len == self@.nodes.len(),
    {
        self.nodes.len()
    }

    /// The node that `id` addresses.
    pub fn node(&self, id: NodeRef) -> (node: &Node<T, S>)
        requires
            self@.contains(id),
        ensures
            node@ == self@.node(id),
            self@.wf() ==> forall|i: int|
                0 <= i < node@.children.len() ==> self@.contains(#[trigger] node@.children[i]),
    {
        proof {
            if self@.wf() {
                assert(self@.owns_children(id));
            }
        }
        &self.nodes[id]
    }

    /// The node that `id` addresses, for writing. Whatever the caller makes
    /// of the node takes its place in the tree; nothing else changes. A
    /// well-formed tree stays well-formed as long as the caller leaves the
    /// parent and the children of the node as they are.
    pub fn node_mut(&mut self, id: NodeRef) -> (node: &mut Node<T, S>)
        requires
            old(self)@.contains(id),
        ensures
            node@ == old(self)@.node(id),
            final(self)@ == old(self)@.replaced(id, final(node)@),
            old(self)@.wf() && final(node)@.parent == node@.parent && final(node)@.children
                == node@.children ==> final(self)@.wf(),
    {
        proof {
            let before = self@;
            assert forall|n: NodeView<T, S>|
                before.wf() && n.parent == before.node(id).parent && n.children == before.node(
                    id,
                ).children implies (#[trigger] before.replaced(id, n)).wf() by {
                before.lemma_replaced_wf(id, n);
            }
        }
        self.slot(id)
    }

    /// The place of the node that `id` addresses.
    fn slot(&mut self, id: NodeRef) -> (node: &mut Node<T, S>)
        requires
            old(self)@.contains(id),
        ensures
            node@ == old(self)@.node(id),
            final(self)@.nodes =~= old(self)@.nodes.update(id as int, final(node)@),
            final(self)@.learning_rate == old(self)@.learning_rate,
            final(self)@.size == old(self)@.size,
    {
        &mut self.nodes[id]
    }

    /// Whether the tree is well-formed. A tree that only the operations of
    /// this type have written to always is; the test is for a tree whose
    /// fields have been written to directly.
    pub fn is_well_formed(&self) -> (ok: bool)
        ensures
            ok == self@.wf(),
    {
        let n = self.nodes.len();
        if n == 0 || self.size != n || self.nodes[0].parent.is_some() {
            return false;
        }
        let mut id: usize = 0;
        while id < n
            invariant
                n == self@.nodes.len(),
                id <= n,
                forall|k: NodeRef| k < id ==> #[trigger] self@.owns_children(k),
                forall|k: NodeRef| 0 < k < id ==> #[trigger] self@.attached(k),
            decreases n - id,
        {
            if !self.owns_its_children(id) || (id > 0 && !self.is_attached(id)) {
                return false;
            }
            id = id + 1;
        }
        true
    }

    /// Whether the node `id` is attached to a parent that lists it.
    fn is_attached(&self, id: NodeRef) -> (ok: bool)
        requires
            self@.contains(id),
        ensures
            ok == self@.attached(id),
    {
        let p = match self.nodes[id].parent {
            Some(p) => p,
            None => {
                return false;
            },
        };
        if p >= id {
            return false;
        }
        let siblings = &self.nodes[p].children;
        let mut i: usize = 0;
        while i < siblings.len()
            invariant
                i <= siblings.len(),
                p < id,
                self@.node(id).parent == Some(p),
                siblings@ == self@.node(p).children,
                forall|k: int| 0 <= k < i ==> siblings@[k] != id,
            decreases siblings.len() - i,
        {
            if siblings[i] == id {
                assert(self@.node(p).children[i as int] == id);
                return true;
            }
            i = i + 1;
        }
        false
    }

    /// Whether the children of the node `id` are nodes of the tree created
    /// after it, in the order of their creation, that record it as their
    /// parent.
    fn owns_its_children(&self, id: NodeRef) -> (ok: bool)
        requires
            self@.contains(id),
        ensures
            ok == self@.owns_children(id),
    {
        let children = &self.nodes[id].children;
        let mut i: usize = 0;
        while i < children.len()
            invariant
                i <= children.len(),
                children@ == self@.node(id).children,
                forall|k: int|
                    0 <= k < i ==> id < #[trigger] children@[k] < self@.nodes.len() && self@.node(
                        children@[k],
                    ).parent == Some(id),
                forall|k: int, l: int| 0 <= k < l < i ==> #[trigger] children@[k] < #[trigger] children@[l],
            decreases children.len() - i,
        {
            let child = children[i];
            if child <= id || child >= self.nodes.len() {
                return false;
            }
            match self.nodes[child].parent {
                Some(p) => {
                    if p != id {
                        return false;
                    }
                },
                None => {
                    return false;
                },
            }
            if i > 0 && children[i - 1] >= child {
                return false;
            }
            i = i + 1;
        }
        true
    }

    /// Whether the statistics of every node have room for `iterations` more
    /// rounds of the search.
    pub fn has_headroom(&self, iterations: u32) -> (ok: bool)
        ensures
            ok == self@.headroom(iterations as nat),
    {
        let reserve: i128 = iterations as i128 * 0x8000_0000_0000_0000;
        let mut id: usize = 0;
        while id < self.nodes.len()
            invariant
                id <= self.nodes.len(),
                reserve == iterations * 0x8000_0000_0000_0000,
                forall|n: NodeRef|
                    n < id ==> {
                        &&& (#[trigger] self@.node(n)).visits + iterations <= u32::MAX
                        &&& i128::MIN <= self@.node(n).total_reward - reserve
                        &&& self@.node(n).total_reward + reserve <= i128::MAX
                    },
            decreases self.nodes.len() - id,
        {
            let node = &self.nodes[id];
            if node.visits > u32::MAX - iterations || node.total_reward < i128::MIN + reserve
                || node.total_reward > i128::MAX - reserve {
                proof {
                    assert(self@.node(id).visits == node.visits);
                }
                return false;
            }
            id = id + 1;
        }
        true
    }

    /// Runs `iterations` rounds of the search and returns the child of the
    /// root with the greatest total reward, the earliest of several, or
    /// nothing if the root has no child.
    ///
    /// Each round selects a leaf under the scoring function `uct`; if the
    /// leaf has been visited before, expands it and moves on to its first
    /// child, if it got one; plays out from there; and propagates the value
    /// of the playout up to the root.
    pub fn search<F: Fn(i128, u32, u32, i64) -> Option<i64>>(
        &mut self,
        iterations: u32,
        uct: &F,
    ) -> (best: Option<NodeRef>)
        requires
            old(self)@.wf(),
            old(self)@.headroom(iterations as nat),
            accepts_all(*uct),
        ensures
            final(self)@.wf(),
            old(self)@.grows_into(final(self)@),
            final(self)@.node(0).visits == old(self)@.node(0).visits + iterations,
            forall|rounds: nat|
                old(self)@.headroom(iterations as nat + rounds) ==> #[trigger] final(self)@.headroom(
                    rounds,
                ),
            forall|key: Key| #[trigger]
                computes(*uct, key) ==> final(self)@ == old(self)@.search(iterations as nat, key),
            best == final(self)@.node(0).best_child(final(self)@),
    {
        let ghost before = self@;
        let mut i: u32 = 0;
        while i < iterations
            invariant
                i <= iterations,
                accepts_all(*uct),
                before.wf(),
                self@.wf(),
                self@.headroom((iterations - i) as nat),
                forall|total: nat|
                    total >= iterations && #[trigger] before.headroom(total) ==> self@.headroom(
                        (total - i) as nat,
                    ),
                before.grows_into(self@),
                self@.node(0).visits == before.node(0).visits + i,
                forall|key: Key| #[trigger]
                    computes(*uct, key) ==> self@ == before.search(i as nat, key),
            ensures
                i == iterations,
            decreases iterations - i,
        {
            let ghost start_of_round = self@;
            let ghost left = (iterations - i) as nat;
            let mut leaf_node = match self.select(uct) {
                Some(x) => x,
                None => {
                    break ;
                },
            };
            let ghost leaf = leaf_node;
            if self.nodes[leaf_node].visits > 0 {
                leaf_node = match self.expand(leaf_node) {
                    Some(x) => x,
                    None => leaf_node,
                };
            }
            let ghost grown = self@;
            let reward = self.simulate(leaf_node);
            self.backpropagate(leaf_node, reward);
            i = i + 1;
        }
        proof {
            assert(self@.owns_children(0));
        }
        self.nodes[0].best_child(self)
    }

    /// Attaches `node` as the newest child of `parent`: records the parent
    /// in the node, lists the node among the parent's children, and counts
    /// it in `size`. Returns the handle of the node.
    pub fn add_node(&mut self, node: Node<T, S>, parent: NodeRef) -> (id: NodeRef)
        requires
            old(self)@.wf(),
            old(self)@.contains(parent),
            node@.children.len() == 0,
        ensures
            final(self)@ == old(self)@.add_node(node@, parent),
            final(self)@.wf(),
            id == old(self)@.nodes.len(),
    {
        let mut node = node;
        let id = self.nodes.len();
        node.set_parent(parent);
        self.nodes.push(node);
        assert(self.nodes.len() == id + 1);
        self.size += 1;
        let child = self.nodes[parent].add_child(id);
        proof {
            assert(final(self)@.nodes =~= old(self)@.add_node(node@, parent).nodes);
            old(self)@.lemma_add_node_wf(node@, parent);
        }
        child
    }
}

impl<T, S> SelectionStrategy<T, S> for Tree<T, S> where S: State<T>, T: Clone {
    open spec fn can_select(&self) -> bool {
        self@.wf()
    }

    /// Descends from the root to a leaf. At every node on the way the
    /// children challenge one another in their order: an unvisited child
    /// beats every visited one, and among visited children the greater
    /// score wins. Always returns a node.
    fn select<F: Fn(i128, u32, u32, i64) -> Option<i64>>(
        &self,
        uct: &F,
    ) -> (leaf: Option<NodeRef>)
        ensures
            leaf is Some,
            self@.contains(leaf->0),
            self@.node(leaf->0).children.len() == 0,
            forall|id: NodeRef|
                self@.ancestor_or_self(id, leaf->0) ==> #[trigger] self@.favoured(id),
            forall|key: Key| #[trigger] computes(*uct, key) ==> leaf->0 == self@.select(key),
    {
        let mut current: NodeRef = 0;
        while self.nodes[current].children.len() > 0
            invariant
                self@.wf(),
                accepts_all(*uct),
                self@.contains(current),
                forall|id: NodeRef|
                    self@.ancestor_or_self(id, current) ==> #[trigger] self@.favoured(id),
                forall|key: Key| #[trigger]
                    computes(*uct, key) ==> self@.descend(current, key) == self@.descend(0, key),
            decreases self.nodes.len() - current,
        {
            let k = self.choose_child(current, uct);
            let next = self.nodes[current].children[k];
            proof {
                assert(self@.owns_children(current));
            }
            current = next;
        }
        Some(current)
    }
}

impl<T, S> Tree<T, S> where S: State<T>, T: Clone {
    /// The position, among the children of `id`, of the child into which
    /// selection descends.
    fn choose_child<F: Fn(i128, u32, u32, i64) -> Option<i64>>(
        &self,
        id: NodeRef,
        uct: &F,
    ) -> (k: usize)
        requires
            self@.wf(),
            self@.contains(id),
            self@.node(id).children.len() > 0,
            accepts_all(*uct),
        ensures
            self@.prefers_unvisited(id, k as int, self@.node(id).children.len() as int),
            forall|key: Key| #[trigger]
                computes(*uct, key) ==> k == pick(self@.candidates(id, key)),
    {
        let node = &self.nodes[id];
        let n = node.children.len();
        proof {
            assert(self@.owns_children(id));
        }
        let first = &self.nodes[node.children[0]];
        let mut lead: usize = 0;
        let mut lead_visits = first.visits;
        let mut lead_score = first.score(self, self.learning_rate, uct);
        let mut i: usize = 1;
        while i < n
            invariant
                self@.wf(),
                self@.contains(id),
                *node == self.nodes@[id as int],
                n == self@.node(id).children.len(),
                self@.owns_children(id),
                accepts_all(*uct),
                1 <= i <= n,
                0 <= lead < i,
                lead_visits == self@.node(self@.node(id).children[lead as int]).visits,
                self@.prefers_unvisited(id, lead as int, i as int),
                forall|key: Key| #[trigger]
                    computes(*uct, key) ==> {
                        &&& lead == pick(self@.candidates(id, key).take(i as int))
                        &&& wide(lead_score) == self@.candidates(id, key)[lead as int].1
                    },
            decreases n - i,
        {
            let rival = &self.nodes[node.children[i]];
            let rival_visits = rival.visits;
            let rival_score = rival.score(self, self.learning_rate, uct);
            let keeps = keeps_lead(lead_visits, lead_score, rival_visits, rival_score);
            proof {
                let winner = if keeps {
                    lead as int
                } else {
                    i as int
                };
                let winner_score = if keeps {
                    lead_score
                } else {
                    rival_score
                };
                assert forall|key: Key| #[trigger] computes(*uct, key) implies {
                    &&& winner == pick(self@.candidates(id, key).take(i + 1))
                    &&& wide(winner_score) == self@.candidates(id, key)[winner].1
                } by {
                    let all = self@.candidates(id, key);
                    assert(all.take(i + 1).drop_last() =~= all.take(i as int));
                }
            }
            if !keeps {
                lead = i;
                lead_visits = rival_visits;
                lead_score = rival_score;
            }
            i += 1;
        }
        proof {
            assert forall|key: Key| #[trigger] computes(*uct, key) implies lead == pick(
                self@.candidates(id, key),
            ) by {
                assert(self@.candidates(id, key).take(n as int) =~= self@.candidates(id, key));
            }
        }
        lead
    }
}

impl<T, S> ExpansionStrategy<T, S> for Tree<T, S> where S: State<T>, T: Clone {
    open spec fn can_expand(&self, node: NodeRef) -> bool {
        self@.wf() && self@.contains(node)
    }

    /// Adds one child to `node` for every untried action of its state, in
    /// the order in which the state proposes them; the state of each child
    /// is the state of `node` advanced by that one action. Returns the
    /// first child of `node`, or nothing if it has none.
    fn expand(&mut self, node: NodeRef) -> (child: Option<NodeRef>)
        ensures
            final(self)@ == old(self)@.expand(node),
            final(self)@.wf(),
            old(self)@.grows_into(final(self)@),
            final(self)@.nodes.len() == old(self)@.nodes.len() + untried(
                old(self)@.node(node).state,
            ).len(),
            final(self)@.node(node) == (NodeView {
                children: old(self)@.node(node).children + Seq::new(
                    untried(old(self)@.node(node).state).len(),
                    |i: int| (old(self)@.nodes.len() + i) as NodeRef,
                ),
                ..old(self)@.node(node)
            }),
            forall|id: NodeRef|
                id < old(self)@.nodes.len() && id != node ==> #[trigger] final(self)@.node(id) == old(
                    self,
                )@.node(id),
            forall|id: NodeRef|
                old(self)@.nodes.len() <= id < final(self)@.nodes.len() ==> {
                    let action = untried(old(self)@.node(node).state)[id - old(self)@.nodes.len()];
                    let added = #[trigger] final(self)@.node(id);
                    &&& added.action == action
                    &&& added.state == old(self)@.node(node).state.successor(&action)
                    &&& added.visits == 0
                    &&& added.total_reward == 0
                    &&& added.children.len() == 0
                    &&& added.parent == Some(node)
                    &&& final(self)@.parent_of(id) == Some(node)
                },
            child == if final(self)@.node(node).children.len() > 0 {
                Some(final(self)@.node(node).children[0])
            } else {
                None
            },
    {
        let ghost origin = self@.node(node).state;
        let ghost before = self@;
        let ghost mut done: nat = 0;
        let mut curr_state = self.nodes[node].state.clone();
        proof {
            self.nodes@[node as int].state.clone_is_exact(&curr_state);
        }
        loop
            invariant
                before.wf(),
                before.contains(node),
                before.node(node).state == origin,
                self@.wf(),
                self@.contains(node),
                self@.node(node).state == origin,
                done <= untried(origin).len(),
                curr_state == advanced(origin, done),
                self@ == before.grown(node, origin, untried(origin).take(done as int)),
                self@.nodes.len() == before.nodes.len() + done,
            ensures
                done == untried(origin).len(),
            decreases untried(origin).len() - done,
        {
            proof {
                lemma_advanced_untried(origin, done);
                lemma_advanced_step(origin, done);
            }
            match curr_state.next_action() {
                Some(action) => {
                    let mut state = self.nodes[node].state.clone();
                    proof {
                        self.nodes@[node as int].state.clone_is_exact(&state);
                    }
                    state.do_action(&action);
                    curr_state.do_action(&action);
                    let new_node = Node::new(action, state);
                    self.add_node(new_node, node);
                    proof {
                        let actions = untried(origin).take(done as int + 1);
                        assert(actions.drop_last() =~= untried(origin).take(done as int));
                        done = done + 1;
                    }
                },
                None => {
                    break ;
                },
            }
        }
        proof {
            assert(untried(origin).take(done as int) =~= untried(origin));
            before.lemma_expand(node);
        }
        self.nodes[node].child_at(0)
    }
}

impl<T, S> SimulationStrategy<T, S> for Tree<T, S> where S: State<T>, T: Clone {
    open spec fn can_simulate(&self, node: NodeRef) -> bool {
        self@.contains(node)
    }

    /// Plays a copy of the state of `node` out: applies the proposed action
    /// until none is proposed, and returns the sum of the rewards. The tree
    /// and the state of the node are left as they are.
    fn simulate(&self, node: NodeRef) -> (reward: i64)
        ensures
            reward == rollout(self@.node(node).state),
    {
        let ghost origin = self@.node(node).state;
        let ghost mut done: nat = 0;
        let mut total_reward: i64 = 0;
        let mut current_state = self.nodes[node].state.clone();
        proof {
            self.nodes@[node as int].state.clone_is_exact(&current_state);
            lemma_rollout_bounds(origin);
        }
        loop
            invariant
                done <= untried(origin).len() <= u32::MAX,
                current_state == advanced(origin, done),
                total_reward + rollout(current_state) == rollout(origin),
                -0x8000_0000 * done <= total_reward <= 0x7fff_ffff * done,
            ensures
                total_reward == rollout(origin),
            decreases untried(origin).len() - done,
        {
            proof {
                lemma_advanced_untried(origin, done);
                lemma_advanced_step(origin, done);
            }
            match current_state.next_action() {
                Some(action) => {
                    let step = current_state.do_action(&action);
                    assert(done < untried(origin).len());
                    total_reward = total_reward + step as i64;
                    proof {
                        done = done + 1;
                    }
                },
                None => {
                    break ;
                },
            }
        }
        total_reward
    }
}

impl<T, S> BackpropagationStrategy<T, S> for Tree<T, S> where S: State<T>, T: Clone {
    open spec fn can_backpropagate(&self, node: NodeRef, value: i64) -> bool {
        &&& self@.wf()
        &&& self@.contains(node)
        &&& self@.can_credit(node, value as int)
    }

    /// Counts one playout of value `value` at `node` and at every ancestor
    /// of it up to the root: each of them gains one visit and `value` in
    /// total reward. Nothing else changes.
    fn backpropagate(&mut self, node: NodeRef, value: i64)
        ensures
            final(self)@ == old(self)@.backpropagate(node, value as int),
            final(self)@.wf(),
            old(self)@.same_shape(final(self)@),
            old(self)@.grows_into(final(self)@),
            old(self)@.ancestor_or_self(0, node),
            forall|id: NodeRef|
                old(self)@.contains(id) ==> (#[trigger] final(self)@.node(id)).visits == old(
                    self,
                )@.node(id).visits + if old(self)@.ancestor_or_self(id, node) {
                    1nat
                } else {
                    0nat
                },
            forall|id: NodeRef|
                old(self)@.contains(id) ==> (#[trigger] final(self)@.node(id)).total_reward == old(
                    self,
                )@.node(id).total_reward + if old(self)@.ancestor_or_self(id, node) {
                    value as int
                } else {
                    0
                },
    {
        let ghost before = self@;
        let mut current = node;
        loop
            invariant_except_break
                before.can_credit(current, value as int),
                forall|n: NodeRef| n <= current ==> #[trigger] self@.node(n) == before.node(n),
                before.backpropagate(node, value as int) == self@.backpropagate(current, value as int),
            invariant
                self@.wf(),
                self@.contains(current),
                self@.nodes.len() == before.nodes.len(),
            ensures
                self@ == before.backpropagate(node, value as int),
            decreases current,
        {
            let ghost prev = self@;
            proof {
                assert(before.ancestor_or_self(current, current));
            }
            let entry = &mut self.nodes[current];
            entry.total_reward = entry.total_reward + value as i128;
            entry.visits = entry.visits + 1;
            proof {
                assert(self@.nodes =~= prev.credited(current, value as int).nodes);
                assert(prev.same_shape(self@));
                prev.lemma_same_shape_wf(self@);
                assert(prev.attached(current) || current == 0);
                if self@.parent_of(current) is Some {
                    let p = self@.parent_of(current)->0;
                    assert forall|a: NodeRef| before.contains(a) && #[trigger] before.ancestor_or_self(
                        a,
                        p,
                    ) implies {
                        &&& before.node(a).visits < u32::MAX
                        &&& i128::MIN <= before.node(a).total_reward + value <= i128::MAX
                    } by {
                        assert(before.ancestor_or_self(a, current));
                    }
                }
            }
            match self.nodes[current].parent(self) {
                Some(p) => {
                    current = p;
                },
                None => {
                    break ;
                },
            }
        }
        proof {
            before.lemma_backpropagate(node, value as int);
            before.lemma_root_is_ancestor(node);
        }
    }
}

} // verus!
