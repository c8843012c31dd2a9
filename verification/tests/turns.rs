use forest_planner::action::Action;
use forest_planner::board::{Board, Cell};
use forest_planner::forest::{Forest, Player, Tree};
use forest_planner::scorer::{count_crowded, score_action, shadow_points};
use forest_planner::state::GameState;
use forest_planner::sun::{direction_of, sun_from_tree, sun_income};

fn line_board(richness: &[i32]) -> Board {
    let n = richness.len() as i32;
    let cells = (0..n)
        .map(|i| Cell {
            index: i,
            richness: richness[i as usize],
            neighbors: [if i + 1 < n { i + 1 } else { -1 }, -1, -1, i - 1, -1, -1],
        })
        .collect();
    Board::new(cells).unwrap()
}

fn tree(cell: i32, size: i32, mine: bool, dormant: bool) -> Tree {
    Tree { cell_index: cell, size, is_mine: mine, is_dormant: dormant }
}

/// Mine: size 2 on cell 1, size 3 on cell 4, size 1 on cell 6.
/// Theirs: size 3 on cell 3, size 2 on cell 7.
fn grove() -> Vec<Tree> {
    vec![
        tree(1, 2, true, false),
        tree(4, 3, true, false),
        tree(6, 1, true, false),
        tree(3, 3, false, false),
        tree(7, 2, false, false),
    ]
}

fn grove_state(board: &Board, day: i32) -> GameState {
    GameState::new(board, day, 20, 10, 0, 10, 0, &grove()).unwrap()
}

fn snapshot(state: &GameState) -> (Vec<i32>, Vec<bool>, Vec<[i32; 4]>, Vec<Option<Tree>>) {
    let numbers = vec![
        state.day,
        state.last_day,
        state.nutrients,
        state.primary.sun,
        state.primary.score,
        state.opponent.sun,
        state.opponent.score,
    ];
    let flags = vec![state.primary.waiting, state.opponent.waiting];
    let counts = vec![state.primary.counts, state.opponent.counts];
    let trees = (0..state.forest.len()).map(|c| state.forest.get(c as i32)).collect();
    (numbers, flags, counts, trees)
}

#[test]
fn sun_direction_turns_with_the_day() {
    assert_eq!(direction_of(0), 3);
    assert_eq!(direction_of(1), 4);
    assert_eq!(direction_of(2), 5);
    assert_eq!(direction_of(3), 0);
    assert_eq!(direction_of(8), 5);
    assert_eq!(direction_of(23), 2);
}

#[test]
fn tree_of_size_three_is_shaded_by_a_neighbour_of_size_three() {
    let board = line_board(&[1; 9]);
    let forest = Forest::from_trees(9, &vec![tree(4, 3, true, false), tree(3, 3, false, false)]).unwrap();
    assert_eq!(sun_from_tree(&board, &forest, &tree(4, 3, true, false), 3), 0);
    assert_eq!(sun_from_tree(&board, &forest, &tree(3, 3, false, false), 3), 3);
    assert_eq!(sun_from_tree(&board, &forest, &tree(3, 3, false, false), 0), 0);
    assert_eq!(sun_from_tree(&board, &forest, &tree(4, 3, true, false), 0), 3);
}

#[test]
fn unshaded_tree_earns_its_size() {
    let board = line_board(&[1; 9]);
    for size in 0..4 {
        let forest = Forest::from_trees(9, &vec![tree(4, size, true, false)]).unwrap();
        for direction in 0..6 {
            assert_eq!(sun_from_tree(&board, &forest, &tree(4, size, true, false), direction), size);
        }
    }
}

#[test]
fn a_smaller_tree_casts_no_shadow_on_a_taller_one() {
    let board = line_board(&[1; 9]);
    let forest = Forest::from_trees(9, &vec![tree(4, 3, true, false), tree(3, 2, false, false)]).unwrap();
    assert_eq!(sun_from_tree(&board, &forest, &tree(4, 3, true, false), 3), 3);
    assert_eq!(sun_from_tree(&board, &forest, &tree(3, 2, false, false), 0), 0);
}

#[test]
fn a_shadow_is_as_long_as_the_tree_is_tall() {
    let board = line_board(&[1; 9]);
    let source = tree(5, 1, true, false);
    let with = |cell: i32, size: i32| {
        Forest::from_trees(9, &vec![source, tree(cell, size, false, false)]).unwrap()
    };
    // one hop away
    assert_eq!(sun_from_tree(&board, &with(4, 1), &source, 3), 0);
    // two hops away
    assert_eq!(sun_from_tree(&board, &with(3, 1), &source, 3), 1);
    assert_eq!(sun_from_tree(&board, &with(3, 2), &source, 3), 0);
    // three hops away
    assert_eq!(sun_from_tree(&board, &with(2, 2), &source, 3), 1);
    assert_eq!(sun_from_tree(&board, &with(2, 3), &source, 3), 0);
    // four hops away
    assert_eq!(sun_from_tree(&board, &with(1, 3), &source, 3), 1);
}

#[test]
fn the_edge_of_the_board_lets_the_sun_in() {
    let board = line_board(&[1; 9]);
    let forest = Forest::from_trees(9, &vec![tree(1, 2, true, false), tree(0, 0, false, false)]).unwrap();
    assert_eq!(sun_from_tree(&board, &forest, &tree(1, 2, true, false), 3), 2);
    assert_eq!(sun_from_tree(&board, &forest, &tree(0, 0, false, false), 3), 0);
    assert_eq!(sun_from_tree(&board, &forest, &tree(1, 2, true, false), 1), 2);
}

#[test]
fn income_sums_the_trees_of_one_player() {
    let board = line_board(&[1; 9]);
    let forest = Forest::from_trees(9, &grove()).unwrap();
    assert_eq!(sun_income(&board, &forest, Player::Primary, 0), 2);
    assert_eq!(sun_income(&board, &forest, Player::Opponent, 0), 3);
    assert_eq!(sun_income(&board, &forest, Player::Primary, 3), 3);
    assert_eq!(sun_income(&board, &forest, Player::Opponent, 3), 2);
    // no neighbours in direction 5
    assert_eq!(sun_income(&board, &forest, Player::Primary, 2), 6);
    assert_eq!(sun_income(&board, &forest, Player::Opponent, 2), 5);
    assert_eq!(sun_income(&board, &Forest::new(9), Player::Primary, 0), 0);
}

#[test]
fn shadow_points_count_the_trees_behind() {
    let board = line_board(&[1; 9]);
    let forest = Forest::from_trees(9, &grove()).unwrap();
    assert_eq!(shadow_points(&board, &forest, 4, 0, false), 1);
    assert_eq!(shadow_points(&board, &forest, 4, 3, false), 1);
    assert_eq!(shadow_points(&board, &forest, 1, 0, false), 0);
    assert_eq!(shadow_points(&board, &forest, 6, 0, false), 2);
    assert_eq!(shadow_points(&board, &forest, 6, 3, false), -3);
    assert_eq!(shadow_points(&board, &forest, 7, 0, false), 0);
    assert_eq!(shadow_points(&board, &forest, 3, 0, false), -3 - 1 + 2);
    assert_eq!(shadow_points(&board, &forest, 4, 1, false), 0);
    assert_eq!(shadow_points(&board, &forest, 4, 6, false), 1);
}

#[test]
fn shadow_points_of_a_growing_tree_count_the_newly_shaded_cell() {
    let board = line_board(&[1; 9]);
    let forest = Forest::from_trees(9, &grove()).unwrap();
    assert_eq!(shadow_points(&board, &forest, 4, 0, true), 0);
    assert_eq!(shadow_points(&board, &forest, 1, 0, true), -3);
    assert_eq!(shadow_points(&board, &forest, 6, 0, true), 0);
    assert_eq!(shadow_points(&board, &forest, 6, 3, true), -3);
    assert_eq!(shadow_points(&board, &forest, 3, 3, true), 0);
    assert_eq!(shadow_points(&board, &forest, 7, 3, true), -3);
    assert_eq!(shadow_points(&board, &forest, 7, 0, true), 0);
}

#[test]
fn crowded_neighbours_hold_a_tree_or_are_barren() {
    let board = line_board(&[1, 0, 2, 1, 1, 1]);
    let forest = Forest::from_trees(6, &vec![tree(3, 1, true, false)]).unwrap();
    assert_eq!(count_crowded(&board, &forest, 2), 2);
    assert_eq!(count_crowded(&board, &forest, 0), 1);
    assert_eq!(count_crowded(&board, &forest, 4), 1);
    assert_eq!(count_crowded(&board, &forest, 5), 0);
    assert_eq!(count_crowded(&board, &Forest::new(6), 2), 1);
}

#[test]
fn completing_scores_lost_shadow_nutrients_and_lateness() {
    let board = line_board(&[1, 1, 1, 1, 3, 1, 1, 1, 1]);
    assert_eq!(score_action(&grove_state(&board, 5), &board, &Action::Complete(4)), -1);
    assert_eq!(score_action(&grove_state(&board, 15), &board, &Action::Complete(4)), 0);
    assert_eq!(score_action(&grove_state(&board, 16), &board, &Action::Complete(4)), -1 + 20 + 4);
    assert_eq!(score_action(&grove_state(&board, 17), &board, &Action::Complete(4)), -1 + 20 + 4);
    assert_eq!(
        score_action(&grove_state(&board, 20), &board, &Action::Complete(4)),
        -1 + 20 + 4 + 10
    );
    assert_eq!(
        score_action(&grove_state(&board, 22), &board, &Action::Complete(4)),
        -1 + 20 + 4 + 10
    );
    assert_eq!(score_action(&grove_state(&board, 21), &board, &Action::Complete(4)), 20 + 4 + 10);
}

#[test]
fn completing_scores_the_richness_of_the_cell() {
    for (richness, bonus) in [(0, 0), (1, 0), (2, 2), (3, 4)] {
        let board = line_board(&[1, 1, richness, 1]);
        let state =
            GameState::new(&board, 19, 7, 10, 0, 10, 0, &vec![tree(2, 3, true, false)]).unwrap();
        assert_eq!(score_action(&state, &board, &Action::Complete(2)), 7 + bonus);
    }
}

#[test]
fn growing_scores_the_new_shadow() {
    let board = line_board(&[1; 9]);
    assert_eq!(score_action(&grove_state(&board, 2), &board, &Action::Grow(6)), -3);
    assert_eq!(score_action(&grove_state(&board, 5), &board, &Action::Grow(6)), 0);
    assert_eq!(score_action(&grove_state(&board, 5), &board, &Action::Grow(1)), -3);
    assert_eq!(score_action(&grove_state(&board, 1), &board, &Action::Grow(1)), 0);
}

#[test]
fn growing_a_seed_scores_ten_more() {
    let board = line_board(&[1; 9]);
    let trees = vec![tree(2, 0, true, false), tree(3, 1, false, false)];
    let state = GameState::new(&board, 5, 20, 10, 0, 10, 0, &trees).unwrap();
    assert_eq!(score_action(&state, &board, &Action::Grow(2)), 1 + 10);
    assert_eq!(score_action(&state, &board, &Action::Grow(3)), 0);
}

#[test]
fn growing_after_the_last_day_scores_the_new_size() {
    let board = line_board(&[1; 9]);
    assert_eq!(score_action(&grove_state(&board, 23), &board, &Action::Grow(6)), 0);
    assert_eq!(score_action(&grove_state(&board, 24), &board, &Action::Grow(6)), 5 + 2);
    assert_eq!(score_action(&grove_state(&board, 24), &board, &Action::Grow(1)), 5 + 3);
}

#[test]
fn seeding_scores_crowding_position_and_richness() {
    let board = line_board(&[1; 9]);
    let state = grove_state(&board, 0);
    assert_eq!(score_action(&state, &board, &Action::Seed(5, 4)), -4 + 3 + 1);
    assert_eq!(score_action(&state, &board, &Action::Seed(2, 4)), -4 + 3 + 1);
    assert_eq!(score_action(&state, &board, &Action::Seed(8, 7)), -2 + 2 + 1);
    assert_eq!(score_action(&state, &board, &Action::Seed(0, 1)), -2 + 3 + 1);
    let barren = line_board(&[1, 0, 2, 1]);
    let empty = GameState::new(&barren, 0, 20, 10, 0, 10, 0, &vec![]).unwrap();
    assert_eq!(score_action(&empty, &barren, &Action::Seed(2, 3)), -2 + 3 + 2);
    assert_eq!(score_action(&empty, &barren, &Action::Seed(3, 2)), 0 + 3 + 1);
}

#[test]
fn seeding_beyond_cell_36_rounds_towards_zero() {
    let board = line_board(&[1; 60]);
    let empty = GameState::new(&board, 0, 20, 10, 0, 10, 0, &vec![]).unwrap();
    assert_eq!(score_action(&empty, &board, &Action::Seed(36, 0)), 0 + 1);
    assert_eq!(score_action(&empty, &board, &Action::Seed(45, 0)), 0 + 1);
    assert_eq!(score_action(&empty, &board, &Action::Seed(46, 0)), -1 + 1);
    assert_eq!(score_action(&empty, &board, &Action::Seed(47, 0)), -1 + 1);
    assert_eq!(score_action(&empty, &board, &Action::Seed(56, 0)), -2 + 1);
    assert_eq!(score_action(&empty, &board, &Action::Seed(26, 0)), 1 + 1);
    assert_eq!(score_action(&empty, &board, &Action::Seed(27, 0)), 0 + 1);
}

#[test]
fn waiting_scores_nothing() {
    let board = line_board(&[1; 9]);
    assert_eq!(score_action(&grove_state(&board, 20), &board, &Action::Wait), 0);
    assert_eq!(score_action(&grove_state(&board, 20), &board, &Action::Null), 0);
}

#[test]
fn first_turn_of_a_day_hands_out_the_income() {
    let board = line_board(&[1; 9]);
    let mut state = grove_state(&board, 3);
    state.last_day = 2;
    state.open_turn(&board);
    assert_eq!((state.primary.sun, state.primary.score), (13, 3));
    assert_eq!((state.opponent.sun, state.opponent.score), (12, 0));
    assert_eq!(state.last_day, 3);
    // the income of the day has been handed out
    let before = snapshot(&state);
    state.open_turn(&board);
    assert_eq!(snapshot(&state), before);
}

#[test]
fn the_opponent_banks_no_income_as_score() {
    let board = line_board(&[1; 9]);
    let mut state = grove_state(&board, 0);
    state.last_day = -1;
    state.open_turn(&board);
    assert_eq!((state.primary.sun, state.primary.score), (12, 2));
    assert_eq!((state.opponent.sun, state.opponent.score), (13, 0));
    assert_eq!(state.last_day, 0);
}

#[test]
fn income_is_banked_as_score_before_day_14_only() {
    let board = line_board(&[1; 9]);
    let mut early = grove_state(&board, 13);
    early.last_day = 12;
    early.open_turn(&board);
    // day 13 looks in direction 4, where the line has no neighbours
    assert_eq!((early.primary.sun, early.primary.score), (16, 6));
    assert_eq!((early.opponent.sun, early.opponent.score), (15, 0));
    let mut late = grove_state(&board, 14);
    late.last_day = 13;
    late.open_turn(&board);
    assert_eq!((late.primary.sun, late.primary.score), (16, 0));
    assert_eq!((late.opponent.sun, late.opponent.score), (15, 0));
}

#[test]
fn a_turn_on_the_same_day_opens_without_income() {
    let board = line_board(&[1; 9]);
    let mut state = grove_state(&board, 3);
    let before = snapshot(&state);
    state.open_turn(&board);
    assert_eq!(snapshot(&state), before);
}

#[test]
fn opening_a_turn_changes_no_tree_and_no_flag() {
    let board = line_board(&[1; 9]);
    let mut state = grove_state(&board, 3);
    state.last_day = 2;
    let before = snapshot(&state);
    state.open_turn(&board);
    let after = snapshot(&state);
    assert_eq!(after.1, before.1);
    assert_eq!(after.2, before.2);
    assert_eq!(after.3, before.3);
    assert_eq!((state.day, state.nutrients), (3, 20));
}

#[test]
fn growing_makes_the_tree_larger_and_dormant() {
    let board = line_board(&[1; 9]);
    let mut state = grove_state(&board, 2);
    assert_eq!(state.primary.counts, [0, 1, 1, 1]);
    state.play(&board, Player::Primary, &Action::Grow(6));
    assert_eq!(state.forest.get(6), Some(tree(6, 2, true, true)));
    assert_eq!(state.primary.counts, [0, 0, 2, 1]);
    assert_eq!(state.primary.sun, 10 - 2);
    assert_eq!(state.primary.score, -3);
    assert_eq!(state.opponent.counts, [0, 0, 1, 1]);
    assert_eq!((state.opponent.sun, state.opponent.score), (10, 0));
    assert_eq!((state.day, state.nutrients), (2, 20));
    assert_eq!(state.forest.get(4), Some(tree(4, 3, true, false)));
}

#[test]
fn the_opponent_pays_but_scores_no_heuristic() {
    let board = line_board(&[1; 9]);
    let mut state = grove_state(&board, 2);
    state.play(&board, Player::Opponent, &Action::Grow(7));
    assert_eq!(state.forest.get(7), Some(tree(7, 3, false, true)));
    assert_eq!(state.opponent.counts, [0, 0, 0, 2]);
    assert_eq!((state.opponent.sun, state.opponent.score), (10 - 4, 0));
    assert_eq!((state.primary.sun, state.primary.score), (10, 0));
    assert_eq!(state.primary.counts, [0, 1, 1, 1]);
}

#[test]
fn seeding_plants_a_dormant_seed_and_tires_the_origin() {
    let board = line_board(&[1; 9]);
    let mut state = grove_state(&board, 2);
    state.play(&board, Player::Primary, &Action::Seed(5, 4));
    assert_eq!(state.forest.get(5), Some(tree(5, 0, true, true)));
    assert_eq!(state.forest.get(4), Some(tree(4, 3, true, true)));
    assert_eq!(state.primary.counts, [1, 1, 1, 1]);
    assert_eq!((state.primary.sun, state.primary.score), (10, 0));
    // the next seed costs one sun point
    state.play(&board, Player::Primary, &Action::Seed(0, 1));
    assert_eq!(state.forest.get(0), Some(tree(0, 0, true, true)));
    assert_eq!(state.primary.counts, [2, 1, 1, 1]);
    assert_eq!((state.primary.sun, state.primary.score), (9, 2));
}

#[test]
fn the_opponent_seeds_its_own_tree() {
    let board = line_board(&[1; 9]);
    let mut state = grove_state(&board, 2);
    state.play(&board, Player::Opponent, &Action::Seed(8, 7));
    assert_eq!(state.forest.get(8), Some(tree(8, 0, false, true)));
    assert_eq!(state.forest.get(7), Some(tree(7, 2, false, true)));
    assert_eq!(state.opponent.counts, [1, 0, 1, 1]);
    assert_eq!(state.primary.counts, [0, 1, 1, 1]);
}

#[test]
fn completing_removes_the_tree_and_one_nutrient() {
    let board = line_board(&[1; 9]);
    let mut state = grove_state(&board, 2);
    state.play(&board, Player::Primary, &Action::Complete(4));
    assert_eq!(state.forest.get(4), None);
    assert_eq!(state.primary.counts, [0, 1, 1, 0]);
    assert_eq!((state.primary.sun, state.primary.score), (6, -1));
    assert_eq!(state.nutrients, 19);
    assert_eq!(state.day, 2);
}

#[test]
fn day_advances_when_both_players_wait() {
    let board = line_board(&[1; 9]);
    let mut state = grove_state(&board, 2);
    state.play(&board, Player::Primary, &Action::Grow(6));
    state.play(&board, Player::Opponent, &Action::Grow(7));
    state.play(&board, Player::Primary, &Action::Wait);
    assert!(state.primary.waiting && !state.opponent.waiting);
    assert_eq!(state.day, 2);
    assert_eq!(state.forest.get(6), Some(tree(6, 2, true, true)));
    state.play(&board, Player::Opponent, &Action::Wait);
    assert!(state.primary.waiting && state.opponent.waiting);
    assert_eq!(state.day, 3);
    assert_eq!(state.last_day, 2);
    assert_eq!(state.forest.get(6), Some(tree(6, 2, true, false)));
    assert_eq!(state.forest.get(7), Some(tree(7, 3, false, false)));
    assert_eq!(state.primary.counts, [0, 0, 2, 1]);
    assert_eq!(state.opponent.counts, [0, 0, 0, 2]);
}

#[test]
fn day_does_not_advance_on_other_turns() {
    let board = line_board(&[1; 9]);
    let mut state = grove_state(&board, 2);
    state.play(&board, Player::Opponent, &Action::Wait);
    assert_eq!(state.day, 2);
    state.play(&board, Player::Opponent, &Action::Wait);
    assert_eq!(state.day, 2);
    state.play(&board, Player::Primary, &Action::Grow(6));
    assert_eq!(state.day, 2);
    assert_eq!(state.forest.get(6), Some(tree(6, 2, true, true)));
    state.play(&board, Player::Primary, &Action::Seed(5, 4));
    assert_eq!(state.day, 2);
    assert_eq!(state.forest.get(6), Some(tree(6, 2, true, true)));
}

#[test]
fn waiting_flags_stay_set_on_the_new_day() {
    let board = line_board(&[1; 9]);
    let mut state = grove_state(&board, 2);
    state.play(&board, Player::Primary, &Action::Wait);
    state.play(&board, Player::Opponent, &Action::Wait);
    assert_eq!(state.day, 3);
    state.play(&board, Player::Primary, &Action::Grow(6));
    assert_eq!(state.day, 3);
    state.play(&board, Player::Opponent, &Action::Wait);
    assert_eq!(state.day, 4);
    assert_eq!(state.forest.get(6), Some(tree(6, 2, true, false)));
}

#[test]
fn the_placeholder_changes_nothing() {
    let board = line_board(&[1; 9]);
    let mut state = grove_state(&board, 2);
    let before = snapshot(&state);
    state.play(&board, Player::Primary, &Action::Null);
    assert_eq!(snapshot(&state), before);
}

#[test]
fn a_copy_of_the_state_is_independent() {
    let board = line_board(&[1; 9]);
    let state = grove_state(&board, 2);
    let before = snapshot(&state);
    let mut copy = state.duplicate();
    assert_eq!(snapshot(&copy), before);
    copy.play(&board, Player::Primary, &Action::Complete(4));
    copy.play(&board, Player::Primary, &Action::Wait);
    copy.play(&board, Player::Opponent, &Action::Wait);
    assert_eq!(snapshot(&state), before);
    assert!(snapshot(&copy) != before);
}

#[test]
fn set_side_replaces_one_player() {
    let board = line_board(&[1; 9]);
    let mut state = grove_state(&board, 2);
    let mut side = state.side(Player::Opponent);
    side.sun = 99;
    state.set_side(Player::Opponent, side);
    assert_eq!(state.opponent.sun, 99);
    assert_eq!(state.primary.sun, 10);
}
