//! Scores and the choice among scored children.
//!
//! The search does not compute scores itself: the caller supplies a scoring
//! function, and this module decides on what that function returned. A score
//! is an ordered key; a missing score stands for a value that compares with
//! nothing.

use vstd::prelude::*;

verus! {

/// A scoring function as mathematics: from a node's total reward, its
/// visits, its parent's visits and the exploration constant to a score.
pub type Key = spec_fn(int, nat, nat, int) -> Option<int>;

/// What a child shows to the choice: its visits and its score.
pub type Candidate = (nat, Option<int>);

/// A score as mathematics.
pub open spec fn wide(score: Option<i64>) -> Option<int> {
    match score {
        Some(s) => Some(s as int),
        None => None,
    }
}

/// The scoring function may be called on every input.
pub open spec fn accepts_all<F: Fn(i128, u32, u32, i64) -> Option<i64>>(uct: F) -> bool {
    forall|r: i128, v: u32, n: u32, c: i64| call_requires(uct, (r, v, n, c))
}

/// Whatever the scoring function returns is what `key` says: the function
/// is deterministic, and `key` is its mathematical content.
pub open spec fn computes<F: Fn(i128, u32, u32, i64) -> Option<i64>>(uct: F, key: Key) -> bool {
    forall|r: i128, v: u32, n: u32, c: i64, score: Option<i64>| #[trigger]
        call_ensures(uct, (r, v, n, c), score) ==> wide(score) == key(
            r as int,
            v as nat,
            n as nat,
            c as int,
        )
}

/// Whether the child that leads so far stays ahead of the next one. An
/// unvisited leader stays ahead of everything. A visited leader gives way
/// to an unvisited rival whatever the scores are, and stays ahead of a
/// visited rival only with a strictly greater score; a missing score on
/// either side lets the rival pass.
pub open spec fn leads(lead: Candidate, rival: Candidate) -> bool {
    lead.0 == 0 || (rival.0 != 0 && match (lead.1, rival.1) {
        (Some(a), Some(b)) => a > b,
        _ => false,
    })
}

/// The position of the chosen candidate: the leader after every candidate
/// in turn has challenged the leader so far, starting with the first.
pub open spec fn pick(candidates: Seq<Candidate>) -> int
    decreases candidates.len(),
{
    if candidates.len() <= 1 {
        0
    } else {
        let lead = pick(candidates.drop_last());
        if leads(candidates[lead], candidates.last()) {
            lead
        } else {
            candidates.len() - 1
        }
    }
}

/// The position of the first value that no other value exceeds.
pub open spec fn first_max(values: Seq<int>) -> int
    decreases values.len(),
{
    if values.len() <= 1 {
        0
    } else {
        let best = first_max(values.drop_last());
        if values.last() > values[best] {
            values.len() - 1
        } else {
            best
        }
    }
}

/// Decides one challenge on the values that the scoring function returned.
pub fn keeps_lead(
    lead_visits: u32,
    lead_score: Option<i64>,
    rival_visits: u32,
    rival_score: Option<i64>,
) -> (keeps: bool)
    ensures
        keeps == leads(
            (lead_visits as nat, wide(lead_score)),
            (rival_visits as nat, wide(rival_score)),
        ),
{
    if lead_visits == 0 {
        return true;
    }
    if rival_visits == 0 {
        return false;
    }
    match (lead_score, rival_score) {
        (Some(a), Some(b)) => a > b,
        _ => false,
    }
}

/// The chosen position is one of the candidates.
pub proof fn lemma_pick_in_range(candidates: Seq<Candidate>)
    requires
        candidates.len() > 0,
    ensures
        0 <= pick(candidates) < candidates.len(),
    decreases candidates.len(),
{
    if candidates.len() > 1 {
        lemma_pick_in_range(candidates.drop_last());
    }
}

/// An unvisited candidate is preferred over every visited one, whatever the
/// scores: where any candidate is unvisited, the first of them is chosen.
pub proof fn lemma_pick_prefers_unvisited(candidates: Seq<Candidate>)
    requires
        exists|i: int| 0 <= i < candidates.len() && (#[trigger] candidates[i]).0 == 0,
    ensures
        0 <= pick(candidates) < candidates.len(),
        candidates[pick(candidates)].0 == 0,
        forall|j: int| 0 <= j < pick(candidates) ==> (#[trigger] candidates[j]).0 != 0,
    decreases candidates.len(),
{
    if candidates.len() > 1 {
        let front = candidates.drop_last();
        lemma_pick_in_range(front);
        if exists|i: int| 0 <= i < front.len() && (#[trigger] front[i]).0 == 0 {
            lemma_pick_prefers_unvisited(front);
            assert forall|j: int| 0 <= j < pick(front) implies (#[trigger] candidates[j]).0 != 0 by {
                assert(front[j] == candidates[j]);
            }
        } else {
            assert forall|j: int| 0 <= j < front.len() implies (#[trigger] candidates[j]).0 != 0 by {
                assert(front[j] == candidates[j]);
            }
        }
    }
}

/// Among candidates that are all visited and all scored, a candidate of
/// maximal score is chosen, and of several such the last.
pub proof fn lemma_pick_maximizes(candidates: Seq<Candidate>)
    requires
        candidates.len() > 0,
        forall|i: int|
            0 <= i < candidates.len() ==> (#[trigger] candidates[i]).0 != 0 && candidates[i].1 is Some,
    ensures
        0 <= pick(candidates) < candidates.len(),
        forall|j: int|
            0 <= j < candidates.len() ==> (#[trigger] candidates[j]).1->0 <= candidates[pick(
                candidates,
            )].1->0,
        forall|j: int|
            pick(candidates) < j < candidates.len() ==> (#[trigger] candidates[j]).1->0
                < candidates[pick(candidates)].1->0,
    decreases candidates.len(),
{
    if candidates.len() > 1 {
        let front = candidates.drop_last();
        lemma_pick_maximizes(front);
        assert forall|j: int| 0 <= j < front.len() implies front[j] == candidates[j] by {}
    }
}

/// `first_max` names a position that holds a maximal value, and the
/// earliest such position.
pub proof fn lemma_first_max(values: Seq<int>)
    requires
        values.len() > 0,
    ensures
        0 <= first_max(values) < values.len(),
        forall|j: int| 0 <= j < values.len() ==> #[trigger] values[j] <= values[first_max(values)],
        forall|j: int| 0 <= j < first_max(values) ==> #[trigger] values[j] < values[first_max(values)],
    decreases values.len(),
{
    if values.len() > 1 {
        let front = values.drop_last();
        lemma_first_max(front);
        assert forall|j: int| 0 <= j < front.len() implies front[j] == values[j] by {}
    }
}

} // verus!
