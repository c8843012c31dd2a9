//! The simulator: how a turn changes the state.

use vstd::prelude::*;
use crate::action::Action;
use crate::board::Board;
use crate::forest::{
    census, hit, lemma_census_woken, lemma_count_bound, lemma_count_update, of_kind, slot_wf,
    slots_wf, woken, Player, Tree,
};
use crate::rules::{action_cost, cost_of_action, legal_move};
use crate::scorer::{action_value, score_action};
use crate::state::{GameState, Model, SideModel, GAME_DAYS};
use crate::sun::{income, sun_income};

verus! {

/// From this day on the sun income no longer counts towards the score.
pub const BANKING_ENDS: i32 = 14;

/// The most that one day's income can add to a counter: 3 sun points for
/// each cell of the largest board.
pub const INCOME_LIMIT: i32 = 3_145_728;

/// Whether the income of the current day is still to be handed out.
pub open spec fn income_due(m: Model) -> bool {
    m.day != m.last_day
}

/// The state after a turn has been opened. The first turn of a new day
/// hands out the day's sun income: each player collects the income of the
/// own trees, and the primary player also banks it as score before day 14.
/// Any other turn opens without a change.
pub open spec fn opened(board: &Board, m: Model) -> Model {
    if income_due(m) {
        let mine = income(board, m.forest, Player::Primary, m.day);
        let theirs = income(board, m.forest, Player::Opponent, m.day);
        let banked = if m.day < BANKING_ENDS {
            mine
        } else {
            0
        };
        Model {
            last_day: m.day,
            primary: SideModel {
                sun: m.primary.sun + mine,
                score: m.primary.score + banked,
                ..m.primary
            },
            opponent: SideModel { sun: m.opponent.sun + theirs, ..m.opponent },
            ..m
        }
    } else {
        m
    }
}

/// The state after `player` has paid for `action`; the primary player is
/// also credited with the heuristic score of the action.
pub open spec fn charged(board: &Board, m: Model, player: Player, action: Action) -> Model {
    let side = m.side(player);
    let credit = if player == Player::Primary {
        action_value(board, m, action)
    } else {
        0
    };
    m.with_side(
        player,
        SideModel {
            sun: side.sun - action_cost(m, player, action),
            score: side.score + credit,
            ..side
        },
    )
}

/// A fresh seed of `player` on `cell`.
pub open spec fn seedling(cell: int, player: Player) -> Tree {
    Tree {
        cell_index: cell as i32,
        size: 0,
        is_mine: player == Player::Primary,
        is_dormant: true,
    }
}

/// The tree `t` after it has grown.
pub open spec fn grown(t: Tree) -> Tree {
    Tree { size: (t.size + 1) as i32, is_dormant: true, ..t }
}

/// What `action` of `player` does to the state, payment aside. A tree that
/// grows becomes one size larger and dormant. A seed is a new dormant tree
/// of size 0 on the target cell, and leaves the tree that threw it dormant.
/// A completed tree leaves the forest and takes one nutrient with it. A
/// wait marks the player as waiting; once both players wait, the day
/// advances by one and every tree wakes up. The placeholder changes nothing.
pub open spec fn applied(m: Model, player: Player, action: Action) -> Model {
    match action {
        Action::Grow(cell) => match m.tree_at(cell as int) {
            Some(t) => Model { forest: m.forest.update(cell as int, Some(grown(t))), ..m },
            None => m,
        },
        Action::Seed(target, origin) => match m.tree_at(origin as int) {
            Some(t) => Model {
                forest: m.forest.update(target as int, Some(seedling(target as int, player))).update(
                    origin as int,
                    Some(t.asleep()),
                ),
                ..m
            },
            None => m,
        },
        Action::Complete(cell) => Model {
            forest: m.forest.update(cell as int, None),
            nutrients: m.nutrients - 1,
            ..m
        },
        Action::Wait => {
            let waiting = m.with_side(player, SideModel { waiting: true, ..m.side(player) });
            if waiting.all_waiting() {
                Model { day: m.day + 1, forest: woken(m.forest), ..waiting }
            } else {
                waiting
            }
        },
        Action::Null => m,
    }
}

/// The state after `player` has taken `action`: paid for, scored and applied.
pub open spec fn played(board: &Board, m: Model, player: Player, action: Action) -> Model {
    applied(charged(board, m, player, action), player, action)
}

impl GameState {
    /// Opens a turn: on the first turn of a new day each player collects
    /// the day's sun income, and the primary player banks it as score
    /// before day 14.
    pub fn open_turn(&mut self, board: &Board)
        requires
            board.wf(),
            old(self).valid(board),
            old(self)@.within_limits(),
        ensures
            final(self)@ == opened(board, old(self)@),
            final(self).valid(board),
            final(self)@.within(INCOME_LIMIT as int),
    {
        if self.day != self.last_day {
            self.last_day = self.day;
            let mine = sun_income(board, &self.forest, Player::Primary, self.day);
            let theirs = sun_income(board, &self.forest, Player::Opponent, self.day);
            self.primary.sun = self.primary.sun + mine;
            if self.day < BANKING_ENDS {
                self.primary.score = self.primary.score + mine;
            }
            self.opponent.sun = self.opponent.sun + theirs;
        }
    }

    /// Whether the forest covers the board, is well formed, and the cached
    /// tree counts are exact.
    pub open spec fn coherent(&self, board: &Board) -> bool {
        &&& self.forest@.len() == board@.len()
        &&& slots_wf(self.forest@)
        &&& self.primary.counts_match(self.forest@, Player::Primary)
        &&& self.opponent.counts_match(self.forest@, Player::Opponent)
    }

    fn grow_tree(&mut self, board: &Board, player: Player, cell: i32)
        requires
            board.wf(),
            old(self).coherent(board),
            old(self)@.tree_at(cell as int) matches Some(t) && t.owned_by(player) && t.size < 3,
        ensures
            final(self)@ == applied(old(self)@, player, Action::Grow(cell)),
            final(self).coherent(board),
    {
        let ghost slots = self.forest@;
        let tree = self.forest.get(cell).unwrap();
        assert(slot_wf(slots[cell as int], cell as int));
        let taller = Tree {
            cell_index: tree.cell_index,
            size: tree.size + 1,
            is_mine: tree.is_mine,
            is_dormant: true,
        };
        let mut side = self.side(player);
        proof {
            lemma_count_bound(slots, of_kind(player, tree.size as int));
            lemma_count_bound(slots, of_kind(player, tree.size + 1));
            lemma_census_replace(slots, cell as int, Some(taller));
        }
        let from = tree.size as usize;
        side.counts[from] = side.counts[from] - 1;
        side.counts[from + 1] = side.counts[from + 1] + 1;
        self.forest.insert(taller);
        self.set_side(player, side);
    }

    fn plant_seed(&mut self, board: &Board, player: Player, target: i32, origin: i32)
        requires
            board.wf(),
            old(self).coherent(board),
            old(self)@.tree_at(origin as int) is Some,
            board.has_cell(target as int),
            old(self)@.tree_at(target as int) is None,
        ensures
            final(self)@ == applied(old(self)@, player, Action::Seed(target, origin)),
            final(self).coherent(board),
    {
        let ghost slots = self.forest@;
        let tree = self.forest.get(origin).unwrap();
        assert(slot_wf(slots[origin as int], origin as int));
        let seed = Tree {
            cell_index: target,
            size: 0,
            is_mine: player == Player::Primary,
            is_dormant: true,
        };
        let tired = Tree {
            cell_index: tree.cell_index,
            size: tree.size,
            is_mine: tree.is_mine,
            is_dormant: true,
        };
        let mut side = self.side(player);
        proof {
            lemma_count_bound(slots, of_kind(player, 0));
            lemma_census_replace(slots, target as int, Some(seed));
            lemma_census_replace(slots.update(target as int, Some(seed)), origin as int, Some(tired));
        }
        self.forest.insert(seed);
        self.forest.insert(tired);
        side.counts[0] = side.counts[0] + 1;
        self.set_side(player, side);
    }

    fn fell_tree(&mut self, board: &Board, player: Player, cell: i32)
        requires
            board.wf(),
            old(self).coherent(board),
            old(self)@.tree_at(cell as int) matches Some(t) && t.owned_by(player) && t.size == 3,
            old(self).nutrients > i32::MIN,
        ensures
            final(self)@ == applied(old(self)@, player, Action::Complete(cell)),
            final(self).coherent(board),
    {
        let ghost slots = self.forest@;
        let mut side = self.side(player);
        proof {
            lemma_count_bound(slots, of_kind(player, 3));
            lemma_census_replace(slots, cell as int, None);
        }
        side.counts[3] = side.counts[3] - 1;
        self.forest.remove(cell);
        self.nutrients = self.nutrients - 1;
        self.set_side(player, side);
    }

    fn rest(&mut self, board: &Board, player: Player)
        requires
            board.wf(),
            old(self).coherent(board),
            old(self).day < i32::MAX,
        ensures
            final(self)@ == applied(old(self)@, player, Action::Wait),
            final(self).coherent(board),
    {
        let ghost slots = self.forest@;
        let mut side = self.side(player);
        side.waiting = true;
        if self.side(player.other()).waiting {
            self.day = self.day + 1;
            self.forest.wake_all();
            proof {
                assert forall|p: Player, s: int|
                    census(woken(slots), p, s) == #[trigger] census(slots, p, s) by {
                    lemma_census_woken(slots, p, s);
                }
                assert forall|i: int| 0 <= i < slots.len() implies slot_wf(
                    #[trigger] woken(slots)[i],
                    i,
                ) by {
                    assert(slot_wf(slots[i], i));
                }
            }
        }
        self.set_side(player, side);
    }

    /// Lets `player` take `action`: the player pays for it, the primary
    /// player is credited with its heuristic score, and the action changes
    /// the forest and the counters.
    pub fn play(&mut self, board: &Board, player: Player, action: &Action)
        requires
            board.wf(),
            old(self).valid(board),
            old(self)@.within(INCOME_LIMIT as int),
            old(self).day < GAME_DAYS,
            legal_move(board, old(self)@, player, *action),
        ensures
            final(self)@ == played(board, old(self)@, player, *action),
            final(self).valid(board),
    {
        let cost = cost_of_action(self, board, player, action);
        let credit = if player == Player::Primary {
            score_action(self, board, action)
        } else {
            0
        };
        let mut side = self.side(player);
        side.sun = side.sun - cost;
        side.score = side.score + credit;
        self.set_side(player, side);
        assert(self@ == charged(board, old(self)@, player, *action));
        match *action {
            Action::Grow(cell) => self.grow_tree(board, player, cell),
            Action::Seed(target, origin) => self.plant_seed(board, player, target, origin),
            Action::Complete(cell) => self.fell_tree(board, player, cell),
            Action::Wait => self.rest(board, player),
            Action::Null => {},
        }
    }
}

/// Replacing the content of one cell changes the number of trees of each
/// player and size by what left and what came.
pub proof fn lemma_census_replace(slots: Seq<Option<Tree>>, i: int, slot: Option<Tree>)
    requires
        0 <= i < slots.len(),
    ensures
        forall|p: Player, s: int|
            #[trigger] census(slots.update(i, slot), p, s) + hit(slots[i], of_kind(p, s)) == census(
                slots,
                p,
                s,
            ) + hit(slot, of_kind(p, s)),
{
    assert forall|p: Player, s: int|
        #[trigger] census(slots.update(i, slot), p, s) + hit(slots[i], of_kind(p, s)) == census(
            slots,
            p,
            s,
        ) + hit(slot, of_kind(p, s)) by {
        lemma_count_update(slots, of_kind(p, s), i, slot);
    }
}

} // verus!
