//! Rollouts: one turn with its random draws, and a whole simulated game
//! from the current turn to the horizon.

use vstd::prelude::*;
use rand::rngs::ThreadRng;
use crate::action::{canonically_sorted, Action};
use crate::board::Board;
use crate::chance::{draw_between, pick_action};
use crate::forest::{awake_trees, is_awake, lemma_count_bound, lemma_count_update, Player};
use crate::generator::{canonical_actions, is_offer, legal_actions};
use crate::rules::{lemma_offered_is_legal, offered};
use crate::simulator::{charged, opened, played};
use crate::scorer::{lemma_action_value_bound, magnitude};
use crate::state::{GameState, Model, GAME_DAYS};
use crate::sun::{lemma_income_bound, sun_direction};

verus! {

/// The lowest seeding threshold that a turn can draw.
pub const THRESHOLD_LOW: i32 = 5;

/// Every seeding threshold that a turn can draw is below this day.
pub const THRESHOLD_HIGH: i32 = 15;

/// A rollout looks this many days ahead.
pub const LOOKAHEAD_DAYS: i32 = 10;

/// Whether `action` is offered to `player` in state `m` under some seeding
/// threshold that a turn can draw.
pub open spec fn may_choose(board: &Board, m: Model, player: Player, action: Action) -> bool {
    exists|threshold: int|
        THRESHOLD_LOW <= threshold < THRESHOLD_HIGH && #[trigger] offered(
            board,
            m,
            player,
            threshold,
            action,
        )
}

/// Whether `action` stands at position `n` modulo the length in the
/// canonically ordered list of the actions offered to `player` in state
/// `m`, under some seeding threshold that a turn can draw.
pub open spec fn is_nth_choice(board: &Board, m: Model, player: Player, n: int, action: Action) -> bool {
    exists|threshold: int, list: Seq<Action>|
        THRESHOLD_LOW <= threshold < THRESHOLD_HIGH && #[trigger] is_offer(
            board,
            m,
            player,
            threshold,
            list,
        ) && canonically_sorted(list) && list.len() > 0 && action == list[n % (list.len() as int)]
}

/// Whether `after` is the state that a turn of `player` with `action`
/// leaves behind `before`: the turn is opened, and then the action, one of
/// those that the player may choose, is played.
pub open spec fn turn_taken(
    board: &Board,
    before: Model,
    player: Player,
    action: Action,
    after: Model,
) -> bool {
    let start = opened(board, before);
    may_choose(board, start, player, action) && after == played(board, start, player, action)
}

/// The horizon of a rollout that starts on `day`: ten days ahead, and not
/// past the end of the game.
pub open spec fn horizon_of(day: int) -> int {
    if day + LOOKAHEAD_DAYS < GAME_DAYS {
        day + LOOKAHEAD_DAYS
    } else {
        GAME_DAYS as int
    }
}

/// The primary player's score at the end of a rollout: once the game is
/// over (the day is past 23 and both players wait), a third of the sun
/// balance, rounded down, is added to the score.
pub open spec fn settled_score(m: Model) -> int {
    if m.day > 23 && m.all_waiting() {
        m.primary.score + m.primary.sun / 3
    } else {
        m.primary.score
    }
}

/// The player who takes turn `k` of a rollout: the primary player opens,
/// and the players alternate.
pub open spec fn mover_at(k: int) -> Player {
    if k % 2 == 0 {
        Player::Primary
    } else {
        Player::Opponent
    }
}

/// Whether `states` and `actions` record turns taken one after the other
/// from state `base`: turn `k` leads from `states[k]` to `states[k + 1]`
/// with `actions[k]`, and is taken from a state within the limits.
pub open spec fn is_play(board: &Board, base: Model, states: Seq<Model>, actions: Seq<Action>) -> bool {
    &&& states.len() == actions.len() + 1
    &&& states[0] == base
    &&& forall|k: int| 0 <= k < actions.len() ==> (#[trigger] states[k]).within_limits()
    &&& forall|k: int|
        0 <= k < actions.len() ==> turn_taken(
            board,
            states[k],
            mover_at(k),
            #[trigger] actions[k],
            states[k + 1],
        )
}

/// Whether `states` and `actions` record a whole rollout from `base` to the
/// day `end`: at least one turn is taken, the turns go on while the day is
/// below `end` and stop as soon as it is not, and the last state is within
/// the limits too.
pub open spec fn is_playout(
    board: &Board,
    base: Model,
    end: int,
    states: Seq<Model>,
    actions: Seq<Action>,
) -> bool {
    &&& is_play(board, base, states, actions)
    &&& actions.len() >= 1
    &&& forall|k: int| 1 <= k < actions.len() ==> (#[trigger] states[k]).day < end
    &&& states.last().day >= end
    &&& states.last().within_limits()
}

/// Whether `outcome` can come from a rollout from `base`: it names the
/// first action and the settled score of the last state of a rollout to the
/// horizon, which opened with the choice at position `counter`.
pub open spec fn is_outcome_of(board: &Board, base: Model, counter: int, outcome: Outcome) -> bool {
    &&& is_nth_choice(
        board,
        opened(board, base),
        Player::Primary,
        counter,
        outcome.first,
    )
    &&& exists|states: Seq<Model>, actions: Seq<Action>| #[trigger]
        is_playout(board, base, horizon_of(base.day), states, actions) && outcome.first
            == actions[0] && outcome.score == settled_score(states.last())
}

/// Number of players that are not waiting.
pub open spec fn active_players(m: Model) -> int {
    (if m.primary.waiting {
        0int
    } else {
        1int
    }) + (if m.opponent.waiting {
        0int
    } else {
        1int
    })
}

/// What is left to do within the day before `mover` moves: two for each
/// tree that is awake, and one where `mover` waits while the other player
/// does not.
pub open spec fn effort(m: Model, mover: Player) -> int {
    2 * awake_trees(m.forest) + if m.side(mover).waiting && !m.side(mover.opposite()).waiting {
        1int
    } else {
        0int
    }
}

/// Every turn brings the game closer to its end: the day advances, or a
/// player starts to wait, or less is left to do within the day. The day
/// never goes back, and no player stops waiting.
pub proof fn lemma_turn_progress(board: &Board, m: Model, player: Player, action: Action, after: Model)
    requires
        board.wf(),
        m.valid(board),
        turn_taken(board, m, player, action, after),
    ensures
        after.day == m.day || after.day == m.day + 1,
        active_players(after) <= active_players(m),
        effort(after, player.opposite()) >= 0,
        after.day == m.day + 1 || active_players(after) < active_players(m) || effort(
            after,
            player.opposite(),
        ) < effort(m, player),
{
    let start = opened(board, m);
    let paid = charged(board, start, player, action);
    assert(paid.forest == m.forest);
    let threshold = choose|threshold: int|
        THRESHOLD_LOW <= threshold < THRESHOLD_HIGH && #[trigger] offered(
            board,
            start,
            player,
            threshold,
            action,
        );
    lemma_offered_is_legal(board, start, player, threshold, action);
    match action {
        Action::Grow(cell) => {
            let t = m.forest[cell as int];
            lemma_count_update(m.forest, is_awake(), cell as int, Some(crate::simulator::grown(t->0)));
        },
        Action::Seed(target, origin) => {
            let t = m.forest[origin as int];
            let seed = Some(crate::simulator::seedling(target as int, player));
            lemma_count_update(m.forest, is_awake(), target as int, seed);
            lemma_count_update(
                m.forest.update(target as int, seed),
                is_awake(),
                origin as int,
                Some(t->0.asleep()),
            );
        },
        Action::Complete(cell) => {
            lemma_count_update(m.forest, is_awake(), cell as int, None);
        },
        Action::Wait => {},
        Action::Null => {},
    }
}

/// A board of this size or less is small.
pub const SMALL_BOARD: usize = 100;

/// A counter of this magnitude or less is small.
pub const SMALL_COUNTER: i32 = 10_000;

/// No rollout on a small board takes more turns than this.
pub const MOST_TURNS: i32 = 6_665;

/// The most that one turn of a rollout from a modest state changes a score.
pub const MOST_GAIN: i32 = 17_100;

/// Whether the state `m` on `board` is modest: the board is small and so
/// is every counter. A rollout from a modest state never leaves the limits.
pub open spec fn modest(board: &Board, m: Model) -> bool {
    &&& board.size() <= SMALL_BOARD
    &&& m.primary.sun <= SMALL_COUNTER
    &&& m.opponent.sun <= SMALL_COUNTER
    &&& magnitude(m.primary.score) <= SMALL_COUNTER
    &&& magnitude(m.opponent.score) <= SMALL_COUNTER
    &&& magnitude(m.nutrients) <= SMALL_COUNTER
}

/// How far the counters of a modest state can have moved after `turns`
/// turns of a rollout.
pub open spec fn drifted(m: Model, turns: int) -> bool {
    &&& m.primary.sun <= SMALL_COUNTER + 300 * turns
    &&& m.opponent.sun <= SMALL_COUNTER + 300 * turns
    &&& magnitude(m.primary.score) <= SMALL_COUNTER + MOST_GAIN * turns
    &&& magnitude(m.opponent.score) <= SMALL_COUNTER
    &&& magnitude(m.nutrients) <= SMALL_COUNTER + turns
}

/// A bound on the number of turns that are left before the day reaches
/// `end`, on a small board with `mover` to move.
pub open spec fn turns_left(m: Model, mover: Player, end: int) -> int {
    (end - m.day) * 606 + active_players(m) * 202 + effort(m, mover)
}

/// Whether a rollout from `base` can be given up: some turns, taken one
/// after the other before the day reaches `end`, lead to a state beyond the
/// limits.
pub open spec fn can_give_up(board: &Board, base: Model, end: int) -> bool {
    exists|states: Seq<Model>, actions: Seq<Action>| #[trigger]
        is_play(board, base, states, actions) && actions.len() >= 1 && (forall|k: int|
            1 <= k < actions.len() ==> (#[trigger] states[k]).day < end)
            && !states.last().within_limits()
}

/// What one turn can change: each sun balance grows by no more than the
/// day's income, the nutrients shrink by one at most, the opponent's score
/// stays, and the primary player's score moves by no more than the income
/// and the heuristic score of an action.
pub proof fn lemma_turn_bounds(board: &Board, m: Model, player: Player, action: Action, after: Model)
    requires
        board.wf(),
        m.valid(board),
        turn_taken(board, m, player, action, after),
    ensures
        after.primary.sun <= m.primary.sun + 3 * board.size(),
        after.opponent.sun <= m.opponent.sun + 3 * board.size(),
        m.nutrients - 1 <= after.nutrients <= m.nutrients,
        after.opponent.score == m.opponent.score,
        m.primary.score - magnitude(m.nutrients) - 38 - board.size() / 10 <= after.primary.score,
        after.primary.score <= m.primary.score + 3 * board.size() + magnitude(m.nutrients) + 38,
{
    let start = opened(board, m);
    let d = sun_direction(m.day);
    lemma_income_bound(board, m.forest, Player::Primary, d, m.forest.len());
    lemma_income_bound(board, m.forest, Player::Opponent, d, m.forest.len());
    let threshold = choose|threshold: int|
        THRESHOLD_LOW <= threshold < THRESHOLD_HIGH && #[trigger] offered(
            board,
            start,
            player,
            threshold,
            action,
        );
    lemma_offered_is_legal(board, start, player, threshold, action);
    assert(start.valid(board));
    lemma_action_value_bound(board, start, action);
}

/// On a small board every turn before the day `end` leaves fewer turns.
pub proof fn lemma_turns_left(
    board: &Board,
    m: Model,
    player: Player,
    action: Action,
    after: Model,
    end: int,
)
    requires
        board.wf(),
        m.valid(board),
        board.size() <= SMALL_BOARD,
        m.day < end,
        turn_taken(board, m, player, action, after),
    ensures
        0 <= turns_left(after, player.opposite(), end) < turns_left(m, player, end),
        after.day <= end,
{
    lemma_turn_progress(board, m, player, action, after);
    lemma_count_bound(m.forest, is_awake());
    lemma_count_bound(after.forest, is_awake());
    assert(after.forest.len() == m.forest.len());
}

/// A turn of a rollout from a modest state keeps the counters within what
/// they can have moved, and so within the limits.
pub proof fn lemma_modest_turn(
    board: &Board,
    m: Model,
    player: Player,
    action: Action,
    after: Model,
    end: int,
    turns: int,
)
    requires
        board.wf(),
        m.valid(board),
        board.size() <= SMALL_BOARD,
        m.day < end,
        turn_taken(board, m, player, action, after),
        0 <= turns,
        drifted(m, turns),
        turns + turns_left(m, player, end) <= MOST_TURNS,
    ensures
        drifted(after, turns + 1),
        turns + 1 + turns_left(after, player.opposite(), end) <= MOST_TURNS,
        0 <= turns_left(after, player.opposite(), end),
        after.within_limits(),
{
    lemma_turn_bounds(board, m, player, action, after);
    lemma_turns_left(board, m, player, action, after, end);
}

/// A recorded play stays one when a further turn is recorded.
proof fn lemma_play_extends(
    board: &Board,
    base: Model,
    states: Seq<Model>,
    actions: Seq<Action>,
    state: Model,
    action: Action,
)
    requires
        is_play(board, base, states, actions),
        states.last().within_limits(),
        turn_taken(board, states.last(), mover_at(actions.len() as int), action, state),
    ensures
        is_play(board, base, states.push(state), actions.push(action)),
{
    let more_states = states.push(state);
    let more_actions = actions.push(action);
    assert forall|k: int| 0 <= k < more_actions.len() implies (
    #[trigger] more_states[k]).within_limits() by {
        if k < actions.len() {
            assert(more_states[k] == states[k]);
        }
    }
    assert forall|k: int| 0 <= k < more_actions.len() implies turn_taken(
        board,
        more_states[k],
        mover_at(k),
        #[trigger] more_actions[k],
        more_states[k + 1],
    ) by {
        if k < actions.len() {
            assert(more_actions[k] == actions[k]);
            assert(more_states[k] == states[k]);
            assert(more_states[k + 1] == states[k + 1]);
        }
    }
}

/// The action at position `n` modulo the length of `choices`.
pub fn nth_choice(choices: &Vec<Action>, n: usize) -> (action: Action)
    requires
        choices.len() > 0,
    ensures
        action == choices[(n as int) % (choices.len() as int)],
{
    choices[n % choices.len()]
}

/// Takes one turn of `player`. The turn is opened, a seeding threshold is
/// drawn from 5 up to but not including 15, an action is chosen among those
/// offered, and the action is played. With `roll` the offered actions are
/// put in canonical order and the one at position `roll` modulo their
/// number is chosen; without it the choice is random.
pub fn choose_next_move(
    state: &mut GameState,
    board: &Board,
    player: Player,
    roll: Option<usize>,
    rng: &mut ThreadRng,
) -> (action: Action)
    requires
        board.wf(),
        old(state).valid(board),
        old(state)@.within_limits(),
        old(state).day < GAME_DAYS,
    ensures
        final(state).valid(board),
        turn_taken(board, old(state)@, player, action, final(state)@),
        roll matches Some(n) ==> is_nth_choice(
            board,
            opened(board, old(state)@),
            player,
            n as int,
            action,
        ),
{
    state.open_turn(board);
    let ghost start = state@;
    let threshold = draw_between(rng, THRESHOLD_LOW, THRESHOLD_HIGH);
    let action = match roll {
        Some(n) => {
            let choices = canonical_actions(state, board, player, threshold);
            let action = nth_choice(&choices, n);
            proof {
                assert(choices@.contains(choices@[(n as int) % (choices.len() as int)]));
                assert(is_offer(board, start, player, threshold as int, choices@));
            }
            action
        },
        None => {
            let choices = legal_actions(state, board, player, threshold);
            pick_action(rng, &choices).unwrap()
        },
    };
    proof {
        assert(offered(board, start, player, threshold as int, action));
        lemma_offered_is_legal(board, start, player, threshold as int, action);
    }
    state.play(board, player, &action);
    action
}

/// What a rollout reports: the first action that it took and the primary
/// player's score at its end.
#[derive(Clone, Copy, Debug, PartialEq, Eq, Structural)]
pub struct Outcome {
    pub first: Action,
    pub score: i32,
}

/// The horizon of a rollout that starts on `day`.
pub fn horizon(day: i32) -> (h: i32)
    requires
        0 <= day <= GAME_DAYS,
    ensures
        h == horizon_of(day as int),
{
    if day + LOOKAHEAD_DAYS < GAME_DAYS {
        day + LOOKAHEAD_DAYS
    } else {
        GAME_DAYS
    }
}

/// The primary player's score at the end of a rollout.
pub fn final_score(state: &GameState) -> (score: i32)
    requires
        state@.primary.sun >= 0,
        state@.within_limits(),
    ensures
        score == settled_score(state@),
{
    if state.day > 23 && state.primary.waiting && state.opponent.waiting {
        state.primary.score + state.primary.sun / 3
    } else {
        state.primary.score
    }
}

/// Plays one rollout from `base`, which stays as it is: the game is played
/// on a copy. The primary player opens with the offered action at position
/// `counter` of the canonical order; after that the players take turns with
/// random actions until the day reaches the horizon. A rollout cannot start
/// from a finished game or from counters beyond their limits, and is given
/// up when a counter leaves its limits on the way: then there is no outcome.
/// From a modest state of a game that goes on there always is one.
pub fn rollout(base: &GameState, board: &Board, counter: usize, rng: &mut ThreadRng) -> (outcome:
    Option<Outcome>)
    requires
        board.wf(),
        base.valid(board),
    ensures
        base.day >= GAME_DAYS || !base@.within_limits() ==> outcome is None,
        base.day < GAME_DAYS && modest(board, base@) ==> outcome is Some,
        outcome matches Some(o) ==> is_outcome_of(board, base@, counter as int, o),
        outcome is None ==> base.day >= GAME_DAYS || !base@.within_limits() || can_give_up(
            board,
            base@,
            horizon_of(base@.day),
        ),
{
    if base.day >= GAME_DAYS || !base.within_limits() {
        return None;
    }
    let end = horizon(base.day);
    let mut state = base.duplicate();
    let first = choose_next_move(&mut state, board, Player::Primary, Some(counter), rng);
    let mut mover = Player::Opponent;
    let ghost mut states: Seq<Model> = seq![base@, state@];
    let ghost mut actions: Seq<Action> = seq![first];
    proof {
        if modest(board, base@) {
            lemma_count_bound(base@.forest, is_awake());
            lemma_modest_turn(board, base@, Player::Primary, first, state@, end as int, 0);
        }
    }
    while state.day < end
        invariant
            board.wf(),
            state.valid(board),
            base.valid(board),
            end <= GAME_DAYS,
            end == horizon_of(base@.day),
            is_play(board, base@, states, actions),
            actions.len() >= 1,
            actions[0] == first,
            states.last() == state@,
            mover == mover_at(actions.len() as int),
            forall|k: int| 1 <= k < actions.len() ==> (#[trigger] states[k]).day < end,
            modest(board, base@) ==> drifted(state@, actions.len() as int) && actions.len()
                + turns_left(state@, mover, end as int) <= MOST_TURNS && 0 <= turns_left(
                state@,
                mover,
                end as int,
            ),
        decreases end - state.day, active_players(state@), effort(state@, mover),
    {
        if !state.within_limits() {
            return None;
        }
        let ghost before = state@;
        let ghost earlier_states = states;
        let ghost earlier_actions = actions;
        let action = choose_next_move(&mut state, board, mover, None, rng);
        proof {
            lemma_turn_progress(board, before, mover, action, state@);
            if modest(board, base@) {
                lemma_modest_turn(
                    board,
                    before,
                    mover,
                    action,
                    state@,
                    end as int,
                    actions.len() as int,
                );
            }
            lemma_play_extends(board, base@, states, actions, state@, action);
            states = states.push(state@);
            actions = actions.push(action);
            assert forall|k: int| 1 <= k < actions.len() implies (#[trigger] states[k]).day
                < end by {
                assert(states[k] == earlier_states[k]);
            }
        }
        mover = mover.other();
    }
    if !state.within_limits() {
        return None;
    }
    let outcome = Outcome { first, score: final_score(&state) };
    proof {
        assert(is_playout(board, base@, horizon_of(base@.day), states, actions));
    }
    Some(outcome)
}

} // verus!
