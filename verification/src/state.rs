//! The contract between the search and the domain it explores.

use vstd::prelude::*;

verus! {

/// A domain state that proposes actions and advances under them.
///
/// The four specification functions are the mathematical model of a state;
/// the two executable methods must follow it. A state is deterministic: a
/// clone driven through the same actions yields the same rewards.
///
/// Rewards are integers. A domain with real-valued rewards counts them in a
/// fixed-point unit of its choosing. A single reward has 32 bits and a
/// playout fewer than 2^32 steps, so the value of a playout has room in 64
/// bits.
pub trait State<T>: Clone + Sized {
    /// The action that `next_action` proposes in this state, if any.
    spec fn next_action_spec(&self) -> Option<T>;

    /// The state reached by applying `action` to this one.
    spec fn successor(&self, action: &T) -> Self;

    /// The reward earned by applying `action` to this state.
    spec fn reward(&self, action: &T) -> i32;

    /// A bound on the number of proposed actions that can still be applied
    /// one after another before the state is exhausted.
    spec fn horizon(&self) -> u32;

    /// A clone of a state is the same state.
    proof fn clone_is_exact(&self, copy: &Self)
        requires
            cloned::<Self>(*self, *copy),
        ensures
            *copy == *self,
    ;

    /// Applying the proposed action brings the state closer to exhaustion.
    proof fn horizon_decreases(&self, action: &T)
        requires
            self.next_action_spec() == Some(*action),
        ensures
            self.successor(action).horizon() < self.horizon(),
    ;

    /// Proposes one untried action, or nothing once the state is exhausted.
    fn next_action(&self) -> (action: Option<T>)
        ensures
            action == self.next_action_spec(),
    ;

    /// Advances the state by `action` and returns the reward of that step.
    fn do_action(&mut self, action: &T) -> (reward: i32)
        ensures
            *final(self) == old(self).successor(action),
            reward == old(self).reward(action),
    ;
}

/// The actions that a state proposes one after another while each proposal
/// is applied in turn, until nothing is proposed any more.
pub open spec fn untried<T, S: State<T>>(state: S) -> Seq<T>
    decreases state.horizon(),
{
    match state.next_action_spec() {
        None => Seq::empty(),
        Some(action) => {
            proof {
                state.horizon_decreases(&action);
            }
            seq![action] + untried(state.successor(&action))
        },
    }
}

/// The rewards earned step by step along the same chain of proposals.
pub open spec fn rewards<T, S: State<T>>(state: S) -> Seq<int>
    decreases state.horizon(),
{
    match state.next_action_spec() {
        None => Seq::empty(),
        Some(action) => {
            proof {
                state.horizon_decreases(&action);
            }
            seq![state.reward(&action) as int] + rewards(state.successor(&action))
        },
    }
}

/// The undiscounted sum of all rewards earned by playing a state out.
pub open spec fn rollout<T, S: State<T>>(state: S) -> int
    decreases state.horizon(),
{
    match state.next_action_spec() {
        None => 0,
        Some(action) => {
            proof {
                state.horizon_decreases(&action);
            }
            state.reward(&action) + rollout(state.successor(&action))
        },
    }
}

/// The state reached after the first `steps` proposals have been applied.
pub open spec fn advanced<T, S: State<T>>(state: S, steps: nat) -> S
    decreases steps,
{
    if steps == 0 {
        state
    } else {
        match state.next_action_spec() {
            None => state,
            Some(action) => advanced(state.successor(&action), (steps - 1) as nat),
        }
    }
}

/// One more step from `advanced(state, steps)` is the proposal of that
/// state applied to it, or no step at all where nothing is proposed.
pub proof fn lemma_advanced_step<T, S: State<T>>(state: S, steps: nat)
    ensures
        advanced(state, steps + 1) == match advanced(state, steps).next_action_spec() {
            Some(action) => advanced(state, steps).successor(&action),
            None => advanced(state, steps),
        },
    decreases steps,
{
    match state.next_action_spec() {
        Some(action) => {
            let next = state.successor(&action);
            if steps > 0 {
                lemma_advanced_step(next, (steps - 1) as nat);
            } else {
                assert(advanced(next, 0) == next);
            }
        },
        None => {},
    }
}

/// After `steps` of its untried actions, a state has the rest of them left
/// untried: it proposes the action at position `steps`, or nothing once
/// all have been applied.
pub proof fn lemma_advanced_untried<T, S: State<T>>(state: S, steps: nat)
    requires
        steps <= untried(state).len(),
    ensures
        untried(advanced(state, steps)) == untried(state).skip(steps as int),
        advanced(state, steps).next_action_spec() == if steps < untried(state).len() {
            Some(untried(state)[steps as int])
        } else {
            None
        },
    decreases steps,
{
    if steps > 0 {
        let action = state.next_action_spec()->0;
        lemma_advanced_untried(state.successor(&action), (steps - 1) as nat);
    }
}

/// A playout has as many rewards as actions, no more of them than the
/// horizon allows, and its sum stays within what that many 32-bit rewards
/// can add up to.
pub proof fn lemma_rollout_bounds<T, S: State<T>>(state: S)
    ensures
        rewards(state).len() == untried(state).len(),
        untried(state).len() <= state.horizon(),
        -0x8000_0000 * untried(state).len() <= rollout(state) <= 0x7fff_ffff * untried(state).len(),
        i64::MIN < rollout(state) < i64::MAX,
    decreases state.horizon(),
{
    match state.next_action_spec() {
        None => {},
        Some(action) => {
            state.horizon_decreases(&action);
            lemma_rollout_bounds(state.successor(&action));
        },
    }
    let k = untried(state).len() as int;
}

/// A state whose remaining steps all earn the same reward plays out to that
/// reward times the number of remaining steps.
pub proof fn lemma_rollout_of_fixed_reward<T, S: State<T>>(state: S, reward: int)
    requires
        forall|i: int| 0 <= i < rewards(state).len() ==> rewards(state)[i] == reward,
    ensures
        rollout(state) == reward * untried(state).len(),
    decreases state.horizon(),
{
    match state.next_action_spec() {
        None => {
            assert(reward * 0 == 0) by (nonlinear_arith);
        },
        Some(action) => {
            state.horizon_decreases(&action);
            let next = state.successor(&action);
            assert(rewards(state)[0] == reward);
            assert forall|i: int| 0 <= i < rewards(next).len() implies rewards(next)[i] == reward by {
                assert(rewards(state)[i + 1] == rewards(next)[i]);
            }
            lemma_rollout_of_fixed_reward(next, reward);
            let n = untried(next).len() as int;
            assert(reward * (n + 1) == reward * n + reward) by (nonlinear_arith);
        },
    }
}

} // verus!
