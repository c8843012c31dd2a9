use forest_planner::action::Action;
use forest_planner::board::{Board, Cell};
use forest_planner::forest::{Player, Tree};
use forest_planner::generator::{canonical_actions, legal_actions};
use forest_planner::planner::{plan, plan_within, sample, sample_round, summarize, Decision};
use forest_planner::rollout::{
    choose_next_move, final_score, horizon, nth_choice, rollout, Outcome,
};
use forest_planner::state::GameState;
use forest_planner::tally::{aggregate, best_tally, Tally};

fn hex_board() -> Board {
    let steps: [(i32, i32); 6] = [(1, 0), (1, -1), (0, -1), (-1, 0), (-1, 1), (0, 1)];
    let mut places: Vec<(i32, i32)> = vec![(0, 0)];
    for ring in 1..4 {
        let mut at = (ring, 0);
        for side in 0..6 {
            let step = steps[(side + 2) % 6];
            for _ in 0..ring {
                places.push(at);
                at = (at.0 + step.0, at.1 + step.1);
            }
        }
    }
    let mut cells = vec![];
    for (i, place) in places.iter().enumerate() {
        let mut neighbors = [-1; 6];
        for d in 0..6 {
            let next = (place.0 + steps[d].0, place.1 + steps[d].1);
            neighbors[d] = match places.iter().position(|p| *p == next) {
                Some(k) => k as i32,
                None => -1,
            };
        }
        let richness = if i < 7 { 3 } else if i < 19 { 2 } else { 1 };
        cells.push(Cell { index: i as i32, richness, neighbors });
    }
    Board::new(cells).unwrap()
}

fn tree(cell: i32, size: i32, mine: bool, dormant: bool) -> Tree {
    Tree { cell_index: cell, size, is_mine: mine, is_dormant: dormant }
}

fn opening(board: &Board, day: i32) -> GameState {
    let trees = vec![
        tree(22, 1, true, false),
        tree(25, 1, true, false),
        tree(9, 2, true, false),
        tree(31, 1, false, false),
        tree(34, 1, false, false),
        tree(15, 2, false, false),
    ];
    GameState::new(board, day, 20, 6, 0, 6, 0, &trees).unwrap()
}

fn snapshot(state: &GameState) -> (Vec<i32>, Vec<bool>, Vec<[i32; 4]>, Vec<Option<Tree>>) {
    let numbers = vec![
        state.day,
        state.last_day,
        state.nutrients,
        state.primary.sun,
        state.primary.score,
        state.opponent.sun,
        state.opponent.score,
    ];
    let flags = vec![state.primary.waiting, state.opponent.waiting];
    let counts = vec![state.primary.counts, state.opponent.counts];
    let trees = (0..state.forest.len()).map(|c| state.forest.get(c as i32)).collect();
    (numbers, flags, counts, trees)
}

/// The actions that can stand at position `n` of the canonical order, one
/// for each threshold that a turn can draw.
fn nth_choices(state: &GameState, board: &Board, player: Player, n: usize) -> Vec<Action> {
    (5..15)
        .map(|threshold| {
            let list = canonical_actions(state, board, player, threshold);
            list[n % list.len()]
        })
        .collect()
}

fn outcome(first: Action, score: i32) -> Outcome {
    Outcome { first, score }
}

#[test]
fn outcomes_are_grouped_in_order_of_first_appearance() {
    let outcomes = vec![
        outcome(Action::Grow(1), 10),
        outcome(Action::Wait, 5),
        outcome(Action::Grow(1), 20),
        outcome(Action::Seed(3, 4), -7),
        outcome(Action::Wait, 30),
        outcome(Action::Grow(1), 3),
    ];
    assert_eq!(
        aggregate(&outcomes),
        vec![
            Tally { action: Action::Grow(1), count: 3, total: 33 },
            Tally { action: Action::Wait, count: 2, total: 35 },
            Tally { action: Action::Seed(3, 4), count: 1, total: -7 },
        ]
    );
    assert_eq!(aggregate(&vec![]), vec![]);
}

#[test]
fn seed_outcomes_are_grouped_by_target_and_origin() {
    let outcomes = vec![
        outcome(Action::Seed(3, 4), 1),
        outcome(Action::Seed(4, 3), 2),
        outcome(Action::Seed(3, 4), 4),
    ];
    assert_eq!(
        aggregate(&outcomes),
        vec![
            Tally { action: Action::Seed(3, 4), count: 2, total: 5 },
            Tally { action: Action::Seed(4, 3), count: 1, total: 2 },
        ]
    );
}

#[test]
fn sums_do_not_overflow_32_bits() {
    let outcomes = vec![
        outcome(Action::Wait, i32::MAX),
        outcome(Action::Wait, i32::MAX),
        outcome(Action::Grow(0), i32::MIN),
        outcome(Action::Grow(0), i32::MIN),
    ];
    assert_eq!(
        aggregate(&outcomes),
        vec![
            Tally { action: Action::Wait, count: 2, total: 2 * (i32::MAX as i64) },
            Tally { action: Action::Grow(0), count: 2, total: 2 * (i32::MIN as i64) },
        ]
    );
}

#[test]
fn best_tally_has_the_highest_mean() {
    let tallies = vec![
        Tally { action: Action::Grow(1), count: 2, total: 30 },
        Tally { action: Action::Wait, count: 2, total: 35 },
        Tally { action: Action::Grow(2), count: 10, total: 100 },
    ];
    assert_eq!(best_tally(&tallies), Some(1));
    assert_eq!(best_tally(&vec![]), None);
    assert_eq!(best_tally(&tallies[..1].to_vec()), Some(0));
}

#[test]
fn best_tally_compares_means_not_sums() {
    let tallies = vec![
        Tally { action: Action::Grow(1), count: 100, total: 1000 },
        Tally { action: Action::Wait, count: 1, total: 11 },
        Tally { action: Action::Grow(2), count: 3, total: 32 },
    ];
    assert_eq!(best_tally(&tallies), Some(1));
    let negative = vec![
        Tally { action: Action::Grow(1), count: 3, total: -10 },
        Tally { action: Action::Wait, count: 2, total: -5 },
        Tally { action: Action::Grow(2), count: 7, total: -21 },
    ];
    assert_eq!(best_tally(&negative), Some(1));
}

#[test]
fn first_of_equal_means_wins() {
    let tallies = vec![
        Tally { action: Action::Grow(1), count: 2, total: 10 },
        Tally { action: Action::Wait, count: 4, total: 40 },
        Tally { action: Action::Grow(2), count: 1, total: 10 },
        Tally { action: Action::Grow(3), count: 3, total: 30 },
    ];
    assert_eq!(best_tally(&tallies), Some(1));
}

#[test]
fn best_tally_compares_large_sums_exactly() {
    let tallies = vec![
        Tally { action: Action::Grow(1), count: i32::MAX, total: i64::MAX - 1 },
        Tally { action: Action::Wait, count: i32::MAX, total: i64::MAX },
        Tally { action: Action::Grow(2), count: i32::MAX, total: i64::MIN },
    ];
    assert_eq!(best_tally(&tallies), Some(1));
}

#[test]
fn summary_names_the_action_with_the_best_mean() {
    let outcomes = vec![
        outcome(Action::Grow(1), 10),
        outcome(Action::Wait, 5),
        outcome(Action::Grow(1), 20),
        outcome(Action::Wait, 30),
        outcome(Action::Complete(2), 17),
    ];
    assert_eq!(
        summarize(&outcomes),
        Decision { action: Action::Wait, count: 2, total: 35, choices: 3, rollouts: 5 }
    );
}

#[test]
fn summary_of_equal_means_names_the_action_seen_first() {
    let outcomes = vec![
        outcome(Action::Complete(2), 10),
        outcome(Action::Grow(1), 12),
        outcome(Action::Wait, 20),
        outcome(Action::Wait, 4),
        outcome(Action::Grow(7), 12),
    ];
    assert_eq!(
        summarize(&outcomes),
        Decision { action: Action::Grow(1), count: 1, total: 12, choices: 4, rollouts: 5 }
    );
}

#[test]
fn summary_without_outcomes_is_to_wait() {
    assert_eq!(
        summarize(&vec![]),
        Decision { action: Action::Wait, count: 0, total: 0, choices: 0, rollouts: 0 }
    );
}

#[test]
fn horizon_is_ten_days_ahead_within_the_game() {
    assert_eq!(horizon(0), 10);
    assert_eq!(horizon(13), 23);
    assert_eq!(horizon(14), 24);
    assert_eq!(horizon(20), 24);
    assert_eq!(horizon(24), 24);
}

#[test]
fn final_score_adds_a_third_of_the_sun_once_the_game_is_over() {
    let board = hex_board();
    let mut state = GameState::new(&board, 24, 20, 10, 7, 50, 3, &vec![]).unwrap();
    state.primary.waiting = true;
    state.opponent.waiting = true;
    assert_eq!(final_score(&state), 7 + 3);
    state.primary.sun = 11;
    assert_eq!(final_score(&state), 7 + 3);
    state.primary.sun = 12;
    assert_eq!(final_score(&state), 7 + 4);
    state.primary.sun = 2;
    assert_eq!(final_score(&state), 7);
    // the state is only read: the bonus is not added twice
    state.primary.sun = 10;
    assert_eq!(final_score(&state), 10);
    assert_eq!(final_score(&state), 10);
    assert_eq!(state.primary.score, 7);
}

#[test]
fn final_score_is_the_score_while_the_game_goes_on() {
    let board = hex_board();
    let mut state = GameState::new(&board, 23, 20, 10, 7, 50, 3, &vec![]).unwrap();
    state.primary.waiting = true;
    state.opponent.waiting = true;
    assert_eq!(final_score(&state), 7);
    state.day = 24;
    state.opponent.waiting = false;
    assert_eq!(final_score(&state), 7);
    state.opponent.waiting = true;
    state.primary.waiting = false;
    assert_eq!(final_score(&state), 7);
}

#[test]
fn nth_choice_wraps_around() {
    let choices = vec![Action::Grow(1), Action::Grow(2), Action::Wait];
    assert_eq!(nth_choice(&choices, 0), Action::Grow(1));
    assert_eq!(nth_choice(&choices, 2), Action::Wait);
    assert_eq!(nth_choice(&choices, 3), Action::Grow(1));
    assert_eq!(nth_choice(&choices, 7), Action::Grow(2));
}

#[test]
fn a_turn_with_a_roll_takes_the_nth_canonical_action() {
    let board = hex_board();
    let base = opening(&board, 2);
    let mut rng = rand::thread_rng();
    for n in 0..40 {
        let mut state = base.duplicate();
        let action = choose_next_move(&mut state, &board, Player::Primary, Some(n), &mut rng);
        assert!(nth_choices(&base, &board, Player::Primary, n).contains(&action));
        let mut expected = base.duplicate();
        expected.play(&board, Player::Primary, &action);
        assert_eq!(snapshot(&state), snapshot(&expected));
    }
}

#[test]
fn a_turn_without_seeds_takes_exactly_the_nth_canonical_action() {
    let board = hex_board();
    // from day 14 on the day is below no threshold
    let base = opening(&board, 14);
    let list = canonical_actions(&base, &board, Player::Primary, 5);
    assert_eq!(list, canonical_actions(&base, &board, Player::Primary, 14));
    assert!(list.len() > 1);
    let mut rng = rand::thread_rng();
    for n in 0..(2 * list.len()) {
        let mut state = base.duplicate();
        let action = choose_next_move(&mut state, &board, Player::Primary, Some(n), &mut rng);
        assert_eq!(action, list[n % list.len()]);
    }
}

#[test]
fn a_random_turn_takes_an_offered_action() {
    let board = hex_board();
    let base = opening(&board, 2);
    let mut rng = rand::thread_rng();
    let mut seen: Vec<Action> = vec![];
    for _ in 0..200 {
        let mut state = base.duplicate();
        let action = choose_next_move(&mut state, &board, Player::Opponent, None, &mut rng);
        let offered = (5..15).any(|threshold| {
            legal_actions(&base, &board, Player::Opponent, threshold).contains(&action)
        });
        assert!(offered);
        let mut expected = base.duplicate();
        expected.play(&board, Player::Opponent, &action);
        assert_eq!(snapshot(&state), snapshot(&expected));
        if !seen.contains(&action) {
            seen.push(action);
        }
    }
    assert!(seen.len() > 1);
}

/// The primary player can afford no growth and complete no tree, so that
/// a seed is offered exactly when the day is below the threshold.
fn seeds_or_nothing(board: &Board, day: i32) -> GameState {
    let mut trees: Vec<Tree> = (1..6).map(|c| tree(c, 3, true, true)).collect();
    trees.push(tree(0, 2, true, false));
    GameState::new(board, day, 20, 5, 0, 0, 0, &trees).unwrap()
}

#[test]
fn the_threshold_is_at_least_five() {
    let board = hex_board();
    let base = seeds_or_nothing(&board, 4);
    let mut rng = rand::thread_rng();
    for _ in 0..200 {
        let mut state = base.duplicate();
        let action = choose_next_move(&mut state, &board, Player::Primary, None, &mut rng);
        assert!(matches!(action, Action::Seed(_, 0)));
    }
}

#[test]
fn the_threshold_is_below_fifteen() {
    let board = hex_board();
    let base = seeds_or_nothing(&board, 14);
    let mut rng = rand::thread_rng();
    for _ in 0..200 {
        let mut state = base.duplicate();
        let action = choose_next_move(&mut state, &board, Player::Primary, None, &mut rng);
        assert_eq!(action, Action::Wait);
    }
}

#[test]
fn the_threshold_is_drawn_anew_on_every_turn() {
    let board = hex_board();
    let base = seeds_or_nothing(&board, 10);
    let mut rng = rand::thread_rng();
    let mut seeds = 0;
    let mut waits = 0;
    for _ in 0..400 {
        let mut state = base.duplicate();
        match choose_next_move(&mut state, &board, Player::Primary, None, &mut rng) {
            Action::Wait => waits += 1,
            Action::Seed(_, 0) => seeds += 1,
            other => panic!("unexpected action {:?}", other),
        }
    }
    assert!(seeds > 0);
    assert!(waits > 0);
}

#[test]
fn a_turn_opens_with_the_income_of_a_new_day() {
    let board = hex_board();
    // a lone tree of size 3 earns 3 sun points, which lets its owner complete it
    let trees = vec![tree(0, 3, true, false)];
    let mut state = GameState::new(&board, 14, 20, 1, 0, 0, 0, &trees).unwrap();
    let mut rng = rand::thread_rng();
    let mut same_day = state.duplicate();
    let action = choose_next_move(&mut same_day, &board, Player::Primary, Some(0), &mut rng);
    assert_eq!(action, Action::Wait);
    state.last_day = 13;
    let action = choose_next_move(&mut state, &board, Player::Primary, Some(0), &mut rng);
    assert_eq!(action, Action::Complete(0));
    assert_eq!(state.last_day, 14);
    assert_eq!(state.primary.sun, 1 + 3 - 4);
    assert_eq!(state.forest.get(0), None);
}

#[test]
fn a_rollout_opens_with_the_nth_canonical_action() {
    let board = hex_board();
    let base = opening(&board, 2);
    let mut rng = rand::thread_rng();
    for n in 0..30 {
        let outcome = rollout(&base, &board, n, &mut rng).unwrap();
        assert!(nth_choices(&base, &board, Player::Primary, n).contains(&outcome.first));
    }
}

#[test]
fn a_rollout_leaves_the_base_state_as_it_is() {
    let board = hex_board();
    let base = opening(&board, 2);
    let before = snapshot(&base);
    let mut rng = rand::thread_rng();
    for n in 0..20 {
        assert!(rollout(&base, &board, n, &mut rng).is_some());
        assert_eq!(snapshot(&base), before);
    }
}

#[test]
fn a_rollout_to_the_end_of_the_game_settles_the_score() {
    let board = hex_board();
    // without trees both players can only wait, and no sun is earned
    let base = GameState::new(&board, 20, 20, 10, 7, 0, 0, &vec![]).unwrap();
    let mut rng = rand::thread_rng();
    let outcome = rollout(&base, &board, 0, &mut rng).unwrap();
    assert_eq!(outcome, Outcome { first: Action::Wait, score: 7 + 3 });
    let early = GameState::new(&board, 3, 20, 10, 7, 0, 0, &vec![]).unwrap();
    let outcome = rollout(&early, &board, 5, &mut rng).unwrap();
    assert_eq!(outcome, Outcome { first: Action::Wait, score: 7 });
}

#[test]
fn no_rollout_starts_after_the_game_or_beyond_the_limits() {
    let board = hex_board();
    let mut rng = rand::thread_rng();
    let over = opening(&board, 24);
    assert_eq!(rollout(&over, &board, 0, &mut rng), None);
    let mut huge = opening(&board, 2);
    huge.primary.score = 500_000_001;
    assert_eq!(rollout(&huge, &board, 0, &mut rng), None);
    assert_eq!(sample(&over, &board, &mut rng, 5), vec![]);
    assert_eq!(
        plan_within(&huge, &board, &mut rng, 5),
        Decision { action: Action::Wait, count: 0, total: 0, choices: 0, rollouts: 0 }
    );
}

#[test]
fn samples_sweep_through_the_first_actions() {
    let board = hex_board();
    let base = opening(&board, 14);
    let list = canonical_actions(&base, &board, Player::Primary, 5);
    let mut rng = rand::thread_rng();
    let outcomes = sample(&base, &board, &mut rng, 30);
    assert!(outcomes.len() >= list.len());
    for (k, outcome) in outcomes.iter().enumerate() {
        assert_eq!(outcome.first, list[k % list.len()]);
    }
}

#[test]
fn samples_stop_when_the_budget_is_spent() {
    let board = hex_board();
    let base = opening(&board, 2);
    let mut rng = rand::thread_rng();
    assert_eq!(sample(&base, &board, &mut rng, 0), vec![]);
    let started = std::time::Instant::now();
    let outcomes = sample(&base, &board, &mut rng, 20);
    assert!(started.elapsed().as_millis() >= 20);
    assert!(!outcomes.is_empty());
}

#[test]
fn the_plan_is_an_offered_action() {
    let board = hex_board();
    let base = opening(&board, 2);
    let before = snapshot(&base);
    let mut rng = rand::thread_rng();
    let decision = plan_within(&base, &board, &mut rng, 30);
    assert!(decision.rollouts > 0);
    assert!(decision.count > 0);
    assert!(decision.choices > 0);
    assert!(decision.choices <= decision.rollouts);
    assert!(decision.count as usize <= decision.rollouts);
    let offered = (5..15).any(|threshold| {
        legal_actions(&base, &board, Player::Primary, threshold).contains(&decision.action)
    });
    assert!(offered);
    assert_eq!(snapshot(&base), before);
}

#[test]
fn the_plan_counts_the_first_actions_that_were_sampled() {
    let board = hex_board();
    let base = opening(&board, 14);
    let list = canonical_actions(&base, &board, Player::Primary, 5);
    let mut rng = rand::thread_rng();
    let decision = plan(&base, &board, &mut rng);
    assert!(decision.rollouts >= list.len());
    assert_eq!(decision.choices, list.len());
    assert!(list.contains(&decision.action));
}

#[test]
fn the_plan_for_a_player_who_can_only_wait_is_to_wait() {
    let board = hex_board();
    let base = GameState::new(&board, 5, 20, 3, 0, 6, 0, &vec![tree(0, 1, true, false)]).unwrap();
    let mut rng = rand::thread_rng();
    let decision = plan_within(&base, &board, &mut rng, 20);
    assert_eq!(decision.action, Action::Wait);
    assert_eq!(decision.choices, 1);
    assert_eq!(decision.count as usize, decision.rollouts);
    assert!(decision.rollouts > 0);
}

#[test]
fn a_round_after_the_budget_does_nothing() {
    let board = hex_board();
    let base = opening(&board, 14);
    let mut rng = rand::thread_rng();
    let mut outcomes = vec![outcome(Action::Wait, 3)];
    assert!(!sample_round(&base, &board, &mut rng, &mut outcomes, 95, 95));
    assert!(!sample_round(&base, &board, &mut rng, &mut outcomes, 96, 95));
    assert!(!sample_round(&base, &board, &mut rng, &mut outcomes, 0, 0));
    assert_eq!(outcomes, vec![outcome(Action::Wait, 3)]);
}

#[test]
fn a_round_within_the_budget_adds_one_outcome() {
    let board = hex_board();
    let base = opening(&board, 14);
    let list = canonical_actions(&base, &board, Player::Primary, 5);
    let mut rng = rand::thread_rng();
    let mut outcomes: Vec<Outcome> = vec![];
    for k in 0..(2 * list.len()) {
        assert!(sample_round(&base, &board, &mut rng, &mut outcomes, 94, 95));
        assert_eq!(outcomes.len(), k + 1);
        assert_eq!(outcomes[k].first, list[k % list.len()]);
    }
    assert!(sample_round(&base, &board, &mut rng, &mut outcomes, 0, 1));
    assert_eq!(outcomes.len(), 2 * list.len() + 1);
}

#[test]
fn a_round_from_a_finished_game_adds_nothing() {
    let board = hex_board();
    let over = opening(&board, 24);
    let mut rng = rand::thread_rng();
    let mut outcomes: Vec<Outcome> = vec![];
    assert!(sample_round(&over, &board, &mut rng, &mut outcomes, 0, 95));
    assert_eq!(outcomes, vec![]);
}

#[test]
fn a_rollout_from_a_modest_state_always_has_an_outcome() {
    let board = hex_board();
    let mut rng = rand::thread_rng();
    for day in [0, 5, 13, 20, 23] {
        let trees = vec![
            tree(0, 3, true, false),
            tree(7, 2, true, false),
            tree(20, 0, true, false),
            tree(3, 3, false, false),
            tree(30, 1, false, true),
        ];
        let base = GameState::new(&board, day, 10_000, 10_000, -10_000, 10_000, 10_000, &trees).unwrap();
        for n in 0..25 {
            assert!(rollout(&base, &board, n, &mut rng).is_some());
        }
    }
}
