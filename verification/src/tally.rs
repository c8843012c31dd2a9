//! Aggregation of rollout outcomes by first action, and the choice of the
//! first action with the best mean score.

use vstd::prelude::*;
use crate::action::Action;
use crate::rollout::Outcome;

verus! {

/// Largest number of outcomes that can be aggregated.
pub const MAX_OUTCOMES: usize = 0x7fff_ffff;

/// Number of outcomes whose first action is `action`.
pub open spec fn occurrences(outcomes: Seq<Outcome>, action: Action) -> int
    decreases outcomes.len(),
{
    if outcomes.len() == 0 {
        0
    } else {
        occurrences(outcomes.drop_last(), action) + if outcomes.last().first == action {
            1int
        } else {
            0int
        }
    }
}

/// Sum of the scores of the outcomes whose first action is `action`.
pub open spec fn score_sum(outcomes: Seq<Outcome>, action: Action) -> int
    decreases outcomes.len(),
{
    if outcomes.len() == 0 {
        0
    } else {
        score_sum(outcomes.drop_last(), action) + if outcomes.last().first == action {
            outcomes.last().score as int
        } else {
            0int
        }
    }
}

/// Position of the first outcome whose first action is `action`; the
/// number of outcomes where there is none.
pub open spec fn first_seen(outcomes: Seq<Outcome>, action: Action) -> int
    decreases outcomes.len(),
{
    if outcomes.len() == 0 {
        0
    } else {
        let earlier = first_seen(outcomes.drop_last(), action);
        if earlier < outcomes.len() - 1 {
            earlier
        } else if outcomes.last().first == action {
            outcomes.len() - 1
        } else {
            outcomes.len() as int
        }
    }
}

/// Whether the mean score of the outcomes that open with `a` is above the
/// mean score of those that open with `b`. Both actions open some outcome.
pub open spec fn mean_above(outcomes: Seq<Outcome>, a: Action, b: Action) -> bool {
    score_sum(outcomes, a) * occurrences(outcomes, b) > score_sum(outcomes, b) * occurrences(
        outcomes,
        a,
    )
}

/// The first actions that occur among `outcomes`.
pub open spec fn first_actions(outcomes: Seq<Outcome>) -> Set<Action> {
    Set::new(|a: Action| occurrences(outcomes, a) > 0)
}

/// The outcomes that share one first action: how many they are, and the sum
/// of their scores. Their mean score is `total / count`.
#[derive(Clone, Copy, Debug, PartialEq, Eq, Structural)]
pub struct Tally {
    pub action: Action,
    pub count: i32,
    pub total: i64,
}

/// Whether the mean of `a` is above the mean of `b`.
pub open spec fn outranks(a: Tally, b: Tally) -> bool {
    a.total * b.count > b.total * a.count
}

/// Whether some tally is about `action`.
pub open spec fn has_tally(tallies: Seq<Tally>, action: Action) -> bool {
    exists|i: int| 0 <= i < tallies.len() && (#[trigger] tallies[i]).action == action
}

/// Whether `tallies` aggregates `outcomes`: one tally for each first action
/// that occurs, with the number and the score sum of its outcomes, in the
/// order in which the actions first occur.
pub open spec fn tallied(outcomes: Seq<Outcome>, tallies: Seq<Tally>) -> bool {
    &&& forall|i: int|
        0 <= i < tallies.len() ==> {
            let t = #[trigger] tallies[i];
            &&& t.count > 0
            &&& t.count == occurrences(outcomes, t.action)
            &&& t.total == score_sum(outcomes, t.action)
        }
    &&& forall|i: int, j: int|
        0 <= i < j < tallies.len() ==> first_seen(outcomes, (#[trigger] tallies[i]).action)
            < first_seen(outcomes, (#[trigger] tallies[j]).action)
    &&& forall|a: Action| occurrences(outcomes, a) > 0 ==> #[trigger] has_tally(tallies, a)
}

/// Counts and sums are bounded by the number of outcomes, and an action
/// occurs exactly where it is first seen before the end.
pub proof fn lemma_occurrences(outcomes: Seq<Outcome>, action: Action)
    ensures
        0 <= occurrences(outcomes, action) <= outcomes.len(),
        -0x8000_0000 * occurrences(outcomes, action) <= score_sum(outcomes, action) <= 0x7fff_ffff
            * occurrences(outcomes, action),
        0 <= first_seen(outcomes, action) <= outcomes.len(),
        occurrences(outcomes, action) > 0 <==> first_seen(outcomes, action) < outcomes.len(),
    decreases outcomes.len(),
{
    if outcomes.len() > 0 {
        lemma_occurrences(outcomes.drop_last(), action);
    }
}

/// Means are compared consistently: what is not above a tally is below
/// whatever is above that tally.
pub proof fn lemma_outranks_transitive(a: Tally, b: Tally, c: Tally)
    requires
        a.count > 0,
        b.count > 0,
        c.count > 0,
        !outranks(a, b),
        outranks(c, b),
    ensures
        outranks(c, a),
{
    let (at, ac) = (a.total as int, a.count as int);
    let (bt, bc) = (b.total as int, b.count as int);
    let (ct, cc) = (c.total as int, c.count as int);
    assert(at * bc <= bt * ac);
    assert(ct * bc > bt * cc);
    assert((at * bc) * cc <= (bt * ac) * cc) by (nonlinear_arith)
        requires
            at * bc <= bt * ac,
            cc > 0,
    ;
    assert((ct * bc) * ac > (bt * cc) * ac) by (nonlinear_arith)
        requires
            ct * bc > bt * cc,
            ac > 0,
    ;
    assert((bt * ac) * cc == (bt * cc) * ac) by (nonlinear_arith);
    assert((at * bc) * cc == (at * cc) * bc) by (nonlinear_arith);
    assert((ct * bc) * ac == (ct * ac) * bc) by (nonlinear_arith);
    assert(ct * ac > at * cc) by (nonlinear_arith)
        requires
            (ct * ac) * bc > (at * cc) * bc,
            bc > 0,
    ;
}

/// The product of a score sum and a count fits in 128 bits.
proof fn lemma_product_fits(total: int, count: int)
    requires
        -0x8000_0000_0000_0000 <= total <= 0x7fff_ffff_ffff_ffff,
        0 < count <= 0x7fff_ffff,
    ensures
        -0x4000_0000_0000_0000_0000_0000 <= total * count <= 0x4000_0000_0000_0000_0000_0000,
{
    assert(total * count <= 0x7fff_ffff_ffff_ffff * count) by (nonlinear_arith)
        requires
            total <= 0x7fff_ffff_ffff_ffff,
            count > 0,
    ;
    assert(total * count >= -0x8000_0000_0000_0000 * count) by (nonlinear_arith)
        requires
            total >= -0x8000_0000_0000_0000,
            count > 0,
    ;
}

/// Aggregates `outcomes` by first action: for each first action a running
/// count and a running sum of scores, in the order in which the actions
/// first occur.
pub fn aggregate(outcomes: &Vec<Outcome>) -> (tallies: Vec<Tally>)
    requires
        outcomes.len() <= MAX_OUTCOMES,
    ensures
        tallied(outcomes@, tallies@),
{
    let mut tallies: Vec<Tally> = Vec::new();
    let mut k: usize = 0;
    proof {
        assert(outcomes@.take(0) =~= Seq::<Outcome>::empty());
    }
    while k < outcomes.len()
        invariant
            k <= outcomes.len(),
            outcomes.len() <= MAX_OUTCOMES,
            tallied(outcomes@.take(k as int), tallies@),
        decreases outcomes.len() - k,
    {
        let outcome = outcomes[k];
        let ghost seen = outcomes@.take(k as int);
        let ghost more = outcomes@.take(k + 1);
        let ghost before = tallies@;
        proof {
            assert(more.drop_last() =~= seen);
            assert(more.last() == outcome);
            assert forall|a: Action|
                0 <= #[trigger] occurrences(seen, a) <= k && -0x8000_0000 * occurrences(seen, a)
                    <= score_sum(seen, a) <= 0x7fff_ffff * occurrences(seen, a) && 0 <= first_seen(
                    seen,
                    a,
                ) <= k && (occurrences(seen, a) > 0 <==> first_seen(seen, a) < k) by {
                lemma_occurrences(seen, a);
            }
        }
        let mut at: usize = 0;
        while at < tallies.len() && tallies[at].action != outcome.first
            invariant
                at <= tallies.len(),
                forall|j: int| 0 <= j < at ==> (#[trigger] tallies[j]).action != outcome.first,
            decreases tallies.len() - at,
        {
            at += 1;
        }
        if at < tallies.len() {
            let old_tally = tallies[at];
            tallies[at] = Tally {
                action: old_tally.action,
                count: old_tally.count + 1,
                total: old_tally.total + outcome.score as i64,
            };
            proof {
                assert forall|a: Action| occurrences(more, a) > 0 implies #[trigger] has_tally(
                    tallies@,
                    a,
                ) by {
                    if a == outcome.first {
                        assert(tallies@[at as int].action == a);
                    } else {
                        assert(has_tally(before, a));
                        let i = choose|i: int|
                            0 <= i < before.len() && (#[trigger] before[i]).action == a;
                        assert(tallies@[i].action == a);
                    }
                }
                assert forall|i: int| 0 <= i < tallies.len() implies {
                    let t = #[trigger] tallies[i];
                    &&& t.count > 0
                    &&& t.count == occurrences(more, t.action)
                    &&& t.total == score_sum(more, t.action)
                } by {
                    if i != at {
                        assert(tallies[i] == before[i]);
                        if before[i].action == outcome.first {
                            if i < at {
                                assert(first_seen(seen, before[i].action) < first_seen(
                                    seen,
                                    before[at as int].action,
                                ));
                            } else {
                                assert(first_seen(seen, before[at as int].action) < first_seen(
                                    seen,
                                    before[i].action,
                                ));
                            }
                        }
                    }
                }
                assert forall|i: int, j: int| 0 <= i < j < tallies.len() implies first_seen(
                    more,
                    (#[trigger] tallies[i]).action,
                ) < first_seen(more, (#[trigger] tallies[j]).action) by {
                    assert(tallies[i].action == before[i].action);
                    assert(tallies[j].action == before[j].action);
                }
            }
        } else {
            proof {
                if occurrences(seen, outcome.first) > 0 {
                    assert(has_tally(before, outcome.first));
                }
            }
            tallies.push(Tally { action: outcome.first, count: 1, total: outcome.score as i64 });
            proof {
                assert forall|a: Action| occurrences(more, a) > 0 implies #[trigger] has_tally(
                    tallies@,
                    a,
                ) by {
                    if a == outcome.first {
                        assert(tallies@[before.len() as int].action == a);
                    } else {
                        assert(has_tally(before, a));
                        let i = choose|i: int|
                            0 <= i < before.len() && (#[trigger] before[i]).action == a;
                        assert(tallies@[i].action == a);
                    }
                }
                assert forall|i: int| 0 <= i < tallies.len() implies {
                    let t = #[trigger] tallies[i];
                    &&& t.count > 0
                    &&& t.count == occurrences(more, t.action)
                    &&& t.total == score_sum(more, t.action)
                } by {
                    if i < before.len() {
                        assert(tallies[i] == before[i]);
                    }
                }
                assert forall|i: int, j: int| 0 <= i < j < tallies.len() implies first_seen(
                    more,
                    (#[trigger] tallies[i]).action,
                ) < first_seen(more, (#[trigger] tallies[j]).action) by {
                    assert(tallies[i] == before[i]);
                    if j < before.len() {
                        assert(tallies[j] == before[j]);
                    }
                }
            }
        }
        k += 1;
    }
    proof {
        assert(outcomes@.take(k as int) =~= outcomes@);
    }
    tallies
}

/// The position of the tally with the highest mean; among several with
/// that mean, the first. `None` where there is no tally.
pub fn best_tally(tallies: &Vec<Tally>) -> (best: Option<usize>)
    requires
        forall|i: int| 0 <= i < tallies.len() ==> (#[trigger] tallies[i]).count > 0,
    ensures
        best is None <==> tallies.len() == 0,
        best matches Some(b) ==> {
            &&& b < tallies.len()
            &&& forall|j: int| 0 <= j < tallies.len() ==> !outranks(#[trigger] tallies[j], tallies[b as int])
            &&& forall|j: int| 0 <= j < b ==> outranks(tallies[b as int], #[trigger] tallies[j])
        },
{
    if tallies.len() == 0 {
        return None;
    }
    let mut b: usize = 0;
    let mut j: usize = 1;
    while j < tallies.len()
        invariant
            1 <= j <= tallies.len(),
            b < j,
            forall|i: int| 0 <= i < tallies.len() ==> (#[trigger] tallies[i]).count > 0,
            forall|i: int| 0 <= i < j ==> !outranks(#[trigger] tallies[i], tallies[b as int]),
            forall|i: int| 0 <= i < b ==> outranks(tallies[b as int], #[trigger] tallies[i]),
        decreases tallies.len() - j,
    {
        let challenger = tallies[j];
        let holder = tallies[b];
        proof {
            lemma_product_fits(challenger.total as int, holder.count as int);
            lemma_product_fits(holder.total as int, challenger.count as int);
        }
        let left: i128 = challenger.total as i128 * holder.count as i128;
        let right: i128 = holder.total as i128 * challenger.count as i128;
        if left > right {
            proof {
                assert forall|i: int| 0 <= i < j + 1 implies !outranks(
                    #[trigger] tallies[i],
                    challenger,
                ) by {
                    if i < j {
                        lemma_outranks_transitive(tallies[i], holder, challenger);
                    }
                }
                assert forall|i: int| 0 <= i < j implies outranks(challenger, #[trigger] tallies[i]) by {
                    lemma_outranks_transitive(tallies[i], holder, challenger);
                }
            }
            b = j;
        }
        j += 1;
    }
    Some(b)
}

} // verus!
