//! The planner: rollouts are sampled until the time budget is spent, their
//! outcomes are aggregated by first action, and the first action with the
//! best mean score is chosen.

use vstd::prelude::*;
use rand::rngs::ThreadRng;
use std::time::Instant;
use crate::action::Action;
use crate::board::Board;
use crate::rollout::{can_give_up, horizon_of, is_outcome_of, modest, rollout, Outcome};
use crate::state::{GameState, GAME_DAYS};
use crate::tally::{
    aggregate, best_tally, first_actions, first_seen, has_tally, lemma_occurrences, mean_above,
    occurrences, outranks, score_sum, tallied, Tally, MAX_OUTCOMES,
};

verus! {

/// The time budget of one plan, in milliseconds.
pub const BUDGET_MILLIS: u128 = 95;

/// What the planner decides: the chosen first action, the number of
/// rollouts that opened with it and the sum of their scores (their mean
/// score is `total / count`), the number of distinct first actions that
/// were sampled, and the number of rollouts that were completed.
#[derive(Clone, Copy, Debug, PartialEq, Eq, Structural)]
pub struct Decision {
    pub action: Action,
    pub count: i32,
    pub total: i64,
    pub choices: usize,
    pub rollouts: usize,
}

/// The decision where no rollout was completed: to wait.
pub open spec fn fallback() -> Decision {
    Decision { action: Action::Wait, count: 0, total: 0, choices: 0, rollouts: 0 }
}

/// Whether `d` is the decision that `outcomes` lead to. Without outcomes
/// it is the fallback. Otherwise its action opens some outcome, no action
/// has a higher mean score, every action that was first seen earlier has a
/// lower one, and the counts are those of the outcomes.
pub open spec fn decides(outcomes: Seq<Outcome>, d: Decision) -> bool {
    if outcomes.len() == 0 {
        d == fallback()
    } else {
        &&& d.count > 0
        &&& d.count == occurrences(outcomes, d.action)
        &&& d.total == score_sum(outcomes, d.action)
        &&& forall|a: Action| #[trigger]
            occurrences(outcomes, a) > 0 ==> !mean_above(outcomes, a, d.action)
        &&& forall|a: Action| #[trigger]
            occurrences(outcomes, a) > 0 && first_seen(outcomes, a) < first_seen(
                outcomes,
                d.action,
            ) ==> mean_above(outcomes, d.action, a)
        &&& d.choices == first_actions(outcomes).len()
        &&& d.rollouts == outcomes.len()
    }
}

/// Whether `outcomes` can come from sampling rollouts from state `base`:
/// the outcome at position `k` is that of a rollout which opened with the
/// `k`-th choice of the primary player.
pub open spec fn sampled(board: &Board, base: crate::state::Model, outcomes: Seq<Outcome>) -> bool {
    forall|k: int|
        0 <= k < outcomes.len() ==> is_outcome_of(board, base, k, #[trigger] outcomes[k])
}

/// The tallies count as many first actions as occur among the outcomes.
proof fn lemma_tallies_count_choices(outcomes: Seq<Outcome>, tallies: Seq<Tally>)
    requires
        tallied(outcomes, tallies),
    ensures
        tallies.len() == first_actions(outcomes).len(),
{
    let actions = tallies.map_values(|t: Tally| t.action);
    assert forall|i: int, j: int| 0 <= i < actions.len() && 0 <= j < actions.len() && i
        != j implies actions[i] != actions[j] by {
        if i < j {
            assert(first_seen(outcomes, tallies[i].action) < first_seen(
                outcomes,
                tallies[j].action,
            ));
        } else {
            assert(first_seen(outcomes, tallies[j].action) < first_seen(
                outcomes,
                tallies[i].action,
            ));
        }
    }
    assert forall|a: Action| actions.to_set().contains(a) <==> first_actions(outcomes).contains(
        a,
    ) by {
        if actions.to_set().contains(a) {
            let i = choose|i: int| 0 <= i < actions.len() && actions[i] == a;
            assert(tallies[i].count == occurrences(outcomes, a));
        }
        if first_actions(outcomes).contains(a) {
            assert(has_tally(tallies, a));
            let i = choose|i: int| 0 <= i < tallies.len() && (#[trigger] tallies[i]).action == a;
            assert(actions[i] == a);
        }
    }
    assert(actions.to_set() =~= first_actions(outcomes));
    actions.unique_seq_to_set();
}

/// The decision that `outcomes` lead to: the first action with the highest
/// mean score, and among several with that mean the one that was seen
/// first. Without outcomes the decision is to wait.
pub fn summarize(outcomes: &Vec<Outcome>) -> (d: Decision)
    requires
        outcomes.len() <= MAX_OUTCOMES,
    ensures
        decides(outcomes@, d),
{
    let tallies = aggregate(outcomes);
    match best_tally(&tallies) {
        None => {
            proof {
                if outcomes.len() > 0 {
                    let a = outcomes@[0].first;
                    assert(outcomes@.take(1).drop_last() =~= Seq::<Outcome>::empty());
                    lemma_seen_once(outcomes@, 0);
                    assert(has_tally(tallies@, a));
                }
            }
            Decision { action: Action::Wait, count: 0, total: 0, choices: 0, rollouts: 0 }
        },
        Some(b) => {
            let best = tallies[b];
            proof {
                lemma_occurrences(outcomes@, best.action);
                lemma_tallies_count_choices(outcomes@, tallies@);
                assert forall|a: Action| #[trigger]
                    occurrences(outcomes@, a) > 0 implies !mean_above(outcomes@, a, best.action) by {
                    assert(has_tally(tallies@, a));
                    let j = choose|j: int|
                        0 <= j < tallies.len() && (#[trigger] tallies[j]).action == a;
                    assert(!outranks(tallies[j], tallies[b as int]));
                }
                assert forall|a: Action| #[trigger]
                    occurrences(outcomes@, a) > 0 && first_seen(outcomes@, a) < first_seen(
                        outcomes@,
                        best.action,
                    ) implies mean_above(outcomes@, best.action, a) by {
                    assert(has_tally(tallies@, a));
                    let j = choose|j: int|
                        0 <= j < tallies.len() && (#[trigger] tallies[j]).action == a;
                    if j > b {
                        assert(first_seen(outcomes@, tallies[b as int].action) < first_seen(
                            outcomes@,
                            tallies[j].action,
                        ));
                    }
                    assert(outranks(tallies[b as int], tallies[j]));
                }
            }
            Decision {
                action: best.action,
                count: best.count,
                total: best.total,
                choices: tallies.len(),
                rollouts: outcomes.len(),
            }
        },
    }
}

/// The first action of the outcome at position `k` occurs among the outcomes.
proof fn lemma_seen_once(outcomes: Seq<Outcome>, k: int)
    requires
        0 <= k < outcomes.len(),
    ensures
        occurrences(outcomes, outcomes[k].first) > 0,
    decreases outcomes.len(),
{
    lemma_occurrences(outcomes.drop_last(), outcomes[k].first);
    if k < outcomes.len() - 1 {
        lemma_seen_once(outcomes.drop_last(), k);
    }
}

/// One round of sampling, for a clock that reads `elapsed_millis`. Once
/// the budget is spent the round does nothing and says so. Before that it
/// plays one rollout, which opens with the choice whose position is the
/// number of outcomes so far, and adds its outcome if there is one. There
/// is none only where no rollout can start or where the rollout was given
/// up.
pub fn sample_round(
    base: &GameState,
    board: &Board,
    rng: &mut ThreadRng,
    outcomes: &mut Vec<Outcome>,
    elapsed_millis: u128,
    budget_millis: u128,
) -> (going: bool)
    requires
        board.wf(),
        base.valid(board),
        sampled(board, base@, old(outcomes)@),
    ensures
        going == (elapsed_millis < budget_millis),
        sampled(board, base@, final(outcomes)@),
        !going ==> final(outcomes)@ == old(outcomes)@,
        final(outcomes)@ == old(outcomes)@ || (final(outcomes)@.len() == old(outcomes)@.len() + 1
            && final(outcomes)@.drop_last() == old(outcomes)@),
        going && base.day < GAME_DAYS && modest(board, base@) ==> final(outcomes)@.len() == old(
            outcomes,
        )@.len() + 1,
        base.day >= GAME_DAYS || !base@.within_limits() ==> final(outcomes)@ == old(outcomes)@,
        going && final(outcomes)@ == old(outcomes)@ ==> base.day >= GAME_DAYS
            || !base@.within_limits() || can_give_up(board, base@, horizon_of(base@.day)),
{
    if elapsed_millis >= budget_millis {
        return false;
    }
    match rollout(base, board, outcomes.len(), rng) {
        Some(outcome) => {
            let ghost before = outcomes@;
            outcomes.push(outcome);
            proof {
                assert(outcomes@.drop_last() =~= before);
                assert forall|k: int| 0 <= k < outcomes@.len() implies is_outcome_of(
                    board,
                    base@,
                    k,
                    #[trigger] outcomes@[k],
                ) by {
                    if k < before.len() {
                        assert(outcomes@[k] == before[k]);
                    }
                }
            }
        },
        None => {},
    }
    true
}

/// Samples rollouts from `base` until `budget_millis` milliseconds have
/// passed. The clock is read before each rollout and not during one. The
/// rollout at position `k` opens with the `k`-th choice of the primary
/// player, so that successive rollouts sweep through the first actions.
pub fn sample(base: &GameState, board: &Board, rng: &mut ThreadRng, budget_millis: u128) -> (outcomes:
    Vec<Outcome>)
    requires
        board.wf(),
        base.valid(board),
    ensures
        outcomes.len() <= MAX_OUTCOMES,
        sampled(board, base@, outcomes@),
        base.day >= GAME_DAYS || !base@.within_limits() ==> outcomes.len() == 0,
        budget_millis == 0 ==> outcomes.len() == 0,
{
    let mut outcomes: Vec<Outcome> = Vec::new();
    if base.day >= GAME_DAYS || !base.within_limits() {
        return outcomes;
    }
    let start = Instant::now();
    let mut attempts: usize = 0;
    while attempts < MAX_OUTCOMES
        invariant
            board.wf(),
            base.valid(board),
            outcomes.len() <= attempts <= MAX_OUTCOMES,
            sampled(board, base@, outcomes@),
            budget_millis == 0 ==> outcomes.len() == 0,
        decreases MAX_OUTCOMES - attempts,
    {
        let elapsed_millis = start.elapsed().as_millis();
        if !sample_round(base, board, rng, &mut outcomes, elapsed_millis, budget_millis) {
            break ;
        }
        attempts += 1;
    }
    outcomes
}

/// Plans the primary player's next action within `budget_millis`
/// milliseconds: samples rollouts from `base`, which stays as it is, and
/// decides for the first action with the best mean score. Where no rollout
/// was completed the decision is to wait.
pub fn plan_within(base: &GameState, board: &Board, rng: &mut ThreadRng, budget_millis: u128) -> (d:
    Decision)
    requires
        board.wf(),
        base.valid(board),
    ensures
        exists|outcomes: Seq<Outcome>| #[trigger]
            sampled(board, base@, outcomes) && decides(outcomes, d),
        base.day >= GAME_DAYS || !base@.within_limits() ==> d == fallback(),
{
    let outcomes = sample(base, board, rng, budget_millis);
    let d = summarize(&outcomes);
    assert(sampled(board, base@, outcomes@) && decides(outcomes@, d));
    d
}

/// Plans the primary player's next action within the budget of 95
/// milliseconds.
pub fn plan(base: &GameState, board: &Board, rng: &mut ThreadRng) -> (d: Decision)
    requires
        board.wf(),
        base.valid(board),
    ensures
        exists|outcomes: Seq<Outcome>| #[trigger]
            sampled(board, base@, outcomes) && decides(outcomes, d),
        base.day >= GAME_DAYS || !base@.within_limits() ==> d == fallback(),
{
    plan_within(base, board, rng, BUDGET_MILLIS)
}

} // verus!
