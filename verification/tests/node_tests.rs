use mcts::node::{Node, NodeRef};
use mcts::state::State;
use mcts::tree::Tree;

/// Rewards are fixed-point numbers: this is the reward 1.0.
const ONE: i32 = 1000;

/// A state that proposes the action 1, worth the reward 1.0, for as long as
/// it has steps left.
#[derive(Debug, Clone)]
struct DummyState {
    left: u32,
}

impl DummyState {
    fn new() -> Self {
        Self { left: 8 }
    }
}

impl State<u8> for DummyState {
    // The model of the state, over which the library states what it does:
    // it says what the two methods below compute.
    fn next_action_spec(&self) -> Option<u8> {
        self.next_action()
    }

    fn successor(&self, action: &u8) -> Self {
        let mut next = self.clone();
        next.do_action(action);
        next
    }

    fn reward(&self, _action: &u8) -> i32 {
        ONE
    }

    fn horizon(&self) -> u32 {
        self.left
    }

    fn clone_is_exact(&self, _copy: &Self) {}

    fn horizon_decreases(&self, _action: &u8) {}

    fn next_action(&self) -> Option<u8> {
        if self.left == 0 {
            None
        } else {
            Some(1)
        }
    }

    fn do_action(&mut self, _action: &u8) -> i32 {
        self.left = self.left.saturating_sub(1);
        ONE
    }
}

/// An ordered key for a score: greater scores have greater keys, and a
/// score that is not a number has none.
fn key(score: f32) -> Option<i64> {
    if score.is_nan() {
        return None;
    }
    let bits = score.to_bits();
    let magnitude = (bits & 0x7fff_ffff) as i64;
    if bits >> 31 == 1 {
        Some(-magnitude)
    } else {
        Some(magnitude)
    }
}

/// The upper confidence bound of a node from its statistics.
fn uct(total_reward: i128, visits: u32, parent_visits: u32, c: i64) -> Option<i64> {
    let total_reward = total_reward as f32 / ONE as f32;
    let c = c as f32 / ONE as f32;
    let exploration = ((2. * (parent_visits as f32).ln()) / visits as f32).sqrt();
    key(total_reward / visits as f32 + c * exploration)
}

fn build_1depth_tree(size: u8) -> Tree<u8, DummyState> {
    let mut state = DummyState::new();
    let action = state.next_action().unwrap();
    state.do_action(&action);

    let mut tree = Tree::new(ONE as i64, action, state);
    let root = tree.root();

    for _i in 0..size {
        let mut state = tree.node(root).state.clone();
        let action = state.next_action().unwrap();
        state.do_action(&action);

        let child = Node::new(action, state);
        tree.add_node(child, root);
    }

    tree
}

#[test]
fn rc_counts() {
    let tree = build_1depth_tree(5);
    let root = tree.root();

    // The root is held by the tree alone: no node lists it as a child.
    let mut owners = 1;
    // Five nodes refer back to the root as their parent.
    let mut back_references = 0;
    for id in 0..tree.len() {
        if tree.node(id).children.contains(&root) {
            owners += 1;
        }
        if tree.node(id).parent(&tree) == Some(root) {
            back_references += 1;
        }
    }
    assert_eq!(owners, 1);
    assert_eq!(back_references, 5);
}

#[test]
fn child_at() {
    let tree = build_1depth_tree(5);
    let node = tree.root();
    assert!(tree.node(node).child_at(2).is_some());

    let leaf = tree.node(node).child_at(2).unwrap();
    assert!(tree.node(leaf).child_at(2).is_none());
    assert!(tree.node(leaf).parent(&tree).is_some());
}

#[test]
fn best_child() {
    let mut tree = build_1depth_tree(5);
    let node = tree.root();
    assert!(tree.node(node).best_child(&tree).is_some());

    let leaf = tree.node(node).child_at(2).unwrap();
    assert!(tree.node(leaf).best_child(&tree).is_none());

    // Increase reward manually and check the node is selected
    tree.node_mut(leaf).total_reward = (ONE / 2) as i128;
    let best = tree.node(node).best_child(&tree).unwrap();
    assert_eq!(tree.node(best).total_reward, (ONE / 2) as i128);
    assert_eq!(best, leaf);
}

#[test]
fn score() {
    let mut tree = build_1depth_tree(5);
    let node = tree.root();
    assert_eq!(tree.node(node).score(&tree, ONE as i64, &uct), key(0.));
    assert_eq!(tree.node(node).score(&tree, ONE as i64, &uct), Some(0));

    // If the parent was not visited
    let leaf = tree.node(node).child_at(2).unwrap();
    tree.node_mut(leaf).visits = 1;
    tree.node_mut(leaf).total_reward = (ONE / 2) as i128;
    assert!(tree.node(leaf).score(&tree, ONE as i64, &uct).is_none());

    // If the parent has been visited
    tree.node_mut(node).visits = 1;
    assert!(tree.node(leaf).score(&tree, ONE as i64, &uct).is_some());
    // ln(1) is 0, so what is left is the mean reward 0.5.
    assert_eq!(tree.node(leaf).score(&tree, ONE as i64, &uct), key(0.5));
}

#[test]
fn new_node_is_bare() {
    let node: Node<u8, DummyState> = Node::new(7, DummyState::new());
    assert_eq!(node.action, 7);
    assert_eq!(node.state.left, 8);
    assert_eq!(node.visits, 0);
    assert_eq!(node.total_reward, 0);
    assert!(!node.expanded);
    assert!(node.children.is_empty());
    assert!(node.parent.is_none());
}

#[test]
fn add_child_appends_and_returns_the_handle() {
    let mut node: Node<u8, DummyState> = Node::new(7, DummyState::new());
    let first: NodeRef = node.add_child(4);
    let second: NodeRef = node.add_child(9);
    assert_eq!(first, 4);
    assert_eq!(second, 9);
    assert_eq!(node.children, vec![4, 9]);
    assert_eq!(node.child_at(0), Some(4));
    assert_eq!(node.child_at(1), Some(9));
    assert_eq!(node.child_at(2), None);
    // The parent link is the caller's business.
    assert!(node.parent.is_none());
}

#[test]
fn set_parent_leaves_the_parent_untouched() {
    let mut tree = build_1depth_tree(2);
    let root = tree.root();
    let children_before = tree.node(root).children.clone();
    let mut detached: Node<u8, DummyState> = Node::new(3, DummyState::new());
    detached.set_parent(root);
    assert_eq!(detached.parent(&tree), Some(root));
    assert_eq!(tree.node(root).children, children_before);
    // Attaching is what lists the node in the parent.
    let id = tree.add_node(detached, root);
    assert_eq!(tree.node(root).children.last(), Some(&id));
}

#[test]
fn a_parent_link_that_addresses_nothing_counts_as_no_parent() {
    let tree = build_1depth_tree(2);
    let mut stray: Node<u8, DummyState> = Node::new(3, DummyState::new());
    stray.set_parent(tree.len());
    assert_eq!(stray.parent, Some(tree.len()));
    assert_eq!(stray.parent(&tree), None);
    // Such a node scores like a root.
    assert_eq!(stray.score(&tree, ONE as i64, &uct), Some(0));
    stray.set_parent(tree.len() - 1);
    assert_eq!(stray.parent(&tree), Some(tree.len() - 1));
}

#[test]
fn best_child_takes_the_earliest_of_equal_rewards() {
    let mut tree = build_1depth_tree(4);
    let root = tree.root();
    let children = tree.node(root).children.clone();
    // All rewards equal: the first child.
    assert_eq!(tree.node(root).best_child(&tree), Some(children[0]));
    tree.node_mut(children[1]).total_reward = 7;
    tree.node_mut(children[3]).total_reward = 7;
    tree.node_mut(children[2]).total_reward = -3;
    assert_eq!(tree.node(root).best_child(&tree), Some(children[1]));
    tree.node_mut(children[3]).total_reward = 8;
    assert_eq!(tree.node(root).best_child(&tree), Some(children[3]));
    // The total counts, not the mean: many visits do not matter.
    tree.node_mut(children[0]).total_reward = 9;
    tree.node_mut(children[0]).visits = 1000;
    assert_eq!(tree.node(root).best_child(&tree), Some(children[0]));
}

#[test]
fn score_hands_the_statistics_to_the_scoring_function() {
    let mut tree = build_1depth_tree(3);
    let root = tree.root();
    let leaf = tree.node(root).child_at(1).unwrap();
    tree.node_mut(leaf).visits = 3;
    tree.node_mut(leaf).total_reward = 42;
    tree.node_mut(root).visits = 11;
    let echo = |r: i128, v: u32, n: u32, c: i64| -> Option<i64> {
        Some(r as i64 * 1_000_000 + v as i64 * 10_000 + n as i64 * 100 + c)
    };
    assert_eq!(tree.node(leaf).score(&tree, 5, &echo), Some(42_031_105));
    // The root is not scored by the function at all.
    assert_eq!(tree.node(root).score(&tree, 5, &echo), Some(0));
}

#[test]
fn score_is_a_number_exactly_when_node_and_parent_are_visited() {
    let mut tree = build_1depth_tree(1);
    let root = tree.root();
    let leaf = tree.node(root).child_at(0).unwrap();
    for parent_visits in [0u32, 1, 2, 17, u32::MAX] {
        for visits in [1u32, 2, 17, u32::MAX] {
            for total_reward in [-5 * ONE as i128, 0, ONE as i128 / 2, 1 << 40] {
                for c in [0i64, ONE as i64, 3 * ONE as i64] {
                    tree.node_mut(root).visits = parent_visits;
                    tree.node_mut(leaf).visits = visits;
                    tree.node_mut(leaf).total_reward = total_reward;
                    let score = tree.node(leaf).score(&tree, c, &uct);
                    assert_eq!(score.is_some(), parent_visits > 0);
                    // The root scores zero whatever it holds.
                    tree.node_mut(root).total_reward = total_reward;
                    assert_eq!(tree.node(root).score(&tree, c, &uct), Some(0));
                }
            }
        }
    }
}

#[test]
fn greater_scores_have_greater_keys() {
    let scores = [f32::NEG_INFINITY, -3.5, -1e-30, 0., 1e-30, 0.5, 2., f32::INFINITY];
    for (i, a) in scores.iter().enumerate() {
        for (j, b) in scores.iter().enumerate() {
            assert_eq!(key(*a) < key(*b), i < j);
            assert_eq!(key(*a) == key(*b), i == j);
        }
    }
    assert_eq!(key(-0.), key(0.));
    assert_eq!(key(f32::NAN), None);
}
