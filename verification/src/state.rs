//! The game state that a rollout mutates, and its mathematical model.

use vstd::prelude::*;
use crate::board::Board;
use crate::forest::{
    census, hit, lemma_count_bound, lemma_count_step, of_kind, planted, slots_wf, tree_fits, Forest,
    Player, Tree,
};

verus! {

/// Number of days of a game. Days are numbered from 0; a state whose day
/// is `GAME_DAYS` is past the last day.
pub const GAME_DAYS: i32 = 24;

/// Largest magnitude of a sun balance, a score or the nutrients for which
/// one more step is free of overflow.
pub const COUNTER_LIMIT: i32 = 500_000_000;

/// What the model records of one player.
pub struct SideModel {
    pub sun: int,
    pub score: int,
    pub waiting: bool,
}

/// The mathematical model of a game state. The per-size tree counts that
/// the executable state caches are not part of it: they are a function of
/// the forest.
pub struct Model {
    pub day: int,
    /// The last day whose sun income was handed out.
    pub last_day: int,
    pub nutrients: int,
    pub primary: SideModel,
    pub opponent: SideModel,
    pub forest: Seq<Option<Tree>>,
}

impl Model {
    /// The side of `player`.
    pub open spec fn side(self, player: Player) -> SideModel {
        match player {
            Player::Primary => self.primary,
            Player::Opponent => self.opponent,
        }
    }

    /// This model with `side` in place of the side of `player`.
    pub open spec fn with_side(self, player: Player, side: SideModel) -> Model {
        match player {
            Player::Primary => Model { primary: side, ..self },
            Player::Opponent => Model { opponent: side, ..self },
        }
    }

    /// The tree on cell `c`, if any; `None` too where `c` is no cell.
    pub open spec fn tree_at(self, c: int) -> Option<Tree> {
        if 0 <= c < self.forest.len() {
            self.forest[c]
        } else {
            None
        }
    }

    /// Number of trees of `player` with size `size`.
    pub open spec fn count(self, player: Player, size: int) -> int {
        census(self.forest, player, size) as int
    }

    /// Number of trees of `player`.
    pub open spec fn total_trees(self, player: Player) -> int {
        self.count(player, 0) + self.count(player, 1) + self.count(player, 2) + self.count(
            player,
            3,
        )
    }

    /// Whether both players are waiting.
    pub open spec fn all_waiting(self) -> bool {
        self.primary.waiting && self.opponent.waiting
    }

    /// The invariant of a state on `board`: the forest covers the board and
    /// is well formed, the day is in range and no sun balance is negative.
    pub open spec fn valid(self, board: &Board) -> bool {
        &&& self.forest.len() == board@.len()
        &&& slots_wf(self.forest)
        &&& 0 <= self.day <= GAME_DAYS
        &&& self.primary.sun >= 0
        &&& self.opponent.sun >= 0
    }

    /// Whether every sun balance and score is within `COUNTER_LIMIT + slack`, and
    /// the nutrients are within `COUNTER_LIMIT`.
    pub open spec fn within(self, slack: int) -> bool {
        &&& self.primary.sun <= COUNTER_LIMIT + slack
        &&& self.opponent.sun <= COUNTER_LIMIT + slack
        &&& -COUNTER_LIMIT - slack <= self.primary.score <= COUNTER_LIMIT + slack
        &&& -COUNTER_LIMIT - slack <= self.opponent.score <= COUNTER_LIMIT + slack
        &&& -COUNTER_LIMIT <= self.nutrients <= COUNTER_LIMIT
    }

    /// Whether every counter is small enough for one more turn.
    pub open spec fn within_limits(self) -> bool {
        self.within(0)
    }
}

/// What the state holds for one player. `counts[s]` caches the number of
/// the player's trees of size `s`.
#[derive(Clone, Copy, Debug)]
pub struct PlayerState {
    pub sun: i32,
    pub score: i32,
    pub waiting: bool,
    pub counts: [i32; 4],
}

impl View for PlayerState {
    type V = SideModel;

    open spec fn view(&self) -> SideModel {
        SideModel { sun: self.sun as int, score: self.score as int, waiting: self.waiting }
    }
}

impl PlayerState {
    /// Whether the cached counts are those of the trees of `player` in `forest`.
    pub open spec fn counts_match(&self, forest: Seq<Option<Tree>>, player: Player) -> bool {
        forall|s: int| 0 <= s < 4 ==> #[trigger] self.counts[s] == census(forest, player, s)
    }

    /// Number of trees of the player, from the cache.
    pub fn total_trees(&self) -> (n: i64)
        ensures
            n == self.counts[0] + self.counts[1] + self.counts[2] + self.counts[3],
    {
        self.counts[0] as i64 + self.counts[1] as i64 + self.counts[2] as i64
            + self.counts[3] as i64
    }
}

/// The state of a game: the counters, both players and the forest.
pub struct GameState {
    pub day: i32,
    /// The last day whose sun income was handed out.
    pub last_day: i32,
    pub nutrients: i32,
    pub primary: PlayerState,
    pub opponent: PlayerState,
    pub forest: Forest,
}

impl View for GameState {
    type V = Model;

    open spec fn view(&self) -> Model {
        Model {
            day: self.day as int,
            last_day: self.last_day as int,
            nutrients: self.nutrients as int,
            primary: self.primary@,
            opponent: self.opponent@,
            forest: self.forest@,
        }
    }
}

/// The counts of the trees of `player` among `trees`, by size.
pub fn tally_trees(forest: &Forest, player: Player) -> (counts: [i32; 4])
    requires
        forest.wf(),
    ensures
        forall|s: int| 0 <= s < 4 ==> #[trigger] counts[s] == census(forest@, player, s),
{
    let mut counts: [i32; 4] = [0, 0, 0, 0];
    let n = forest.len();
    let mut i: usize = 0;
    proof {
        assert(forest@.take(0) =~= Seq::<Option<Tree>>::empty());
    }
    while i < n
        invariant
            i <= n,
            n == forest@.len(),
            forest.wf(),
            forall|s: int|
                0 <= s < 4 ==> #[trigger] counts[s] == census(forest@.take(i as int), player, s),
        decreases n - i,
    {
        proof {
            assert forall|s: int| 0 <= s < 4 implies census(forest@.take(i as int), player, s)
                <= i by {
                lemma_count_bound(forest@.take(i as int), of_kind(player, s));
            }
            assert forall|s: int| 0 <= s < 4 implies census(forest@.take(i + 1), player, s)
                == census(forest@.take(i as int), player, s) + hit(
                forest@[i as int],
                of_kind(player, s),
            ) by {
                lemma_count_step(forest@, of_kind(player, s), i as int);
            }
        }
        match forest.get(i as i32) {
            Some(t) => {
                if t.belongs_to(player) {
                    let s = t.size as usize;
                    counts[s] = counts[s] + 1;
                }
            },
            None => {},
        }
        i += 1;
    }
    proof {
        assert(forest@.take(n as int) =~= forest@);
    }
    counts
}

impl GameState {
    /// The state's invariant on `board`: that of its model, and the cached
    /// tree counts are exact.
    pub open spec fn valid(&self, board: &Board) -> bool {
        &&& self@.valid(board)
        &&& self.primary.counts_match(self.forest@, Player::Primary)
        &&& self.opponent.counts_match(self.forest@, Player::Opponent)
    }

    /// The side of `player`, for contracts.
    pub open spec fn side_of(&self, player: Player) -> PlayerState {
        match player {
            Player::Primary => self.primary,
            Player::Opponent => self.opponent,
        }
    }

    /// The state at the start of a turn: nobody is waiting yet, the income
    /// of `day` counts as handed out, and the tree counts are taken from
    /// `trees`. Returns `None` when the values describe no valid state on
    /// `board`.
    pub fn new(
        board: &Board,
        day: i32,
        nutrients: i32,
        sun: i32,
        score: i32,
        opponent_sun: i32,
        opponent_score: i32,
        trees: &Vec<Tree>,
    ) -> (state: Option<GameState>)
        requires
            board.wf(),
        ensures
            state is Some <==> {
                &&& 0 <= day <= GAME_DAYS
                &&& sun >= 0
                &&& opponent_sun >= 0
                &&& forall|k: int|
                    0 <= k < trees.len() ==> tree_fits(#[trigger] trees[k], board.size())
            },
            state matches Some(s) ==> s.valid(board) && s@ == (Model {
                day: day as int,
                last_day: day as int,
                nutrients: nutrients as int,
                primary: SideModel { sun: sun as int, score: score as int, waiting: false },
                opponent: SideModel {
                    sun: opponent_sun as int,
                    score: opponent_score as int,
                    waiting: false,
                },
                forest: planted(board@.len(), trees@),
            }),
    {
        if day < 0 || day > GAME_DAYS || sun < 0 || opponent_sun < 0 {
            return None;
        }
        match Forest::from_trees(board.len(), trees) {
            None => None,
            Some(forest) => {
                let mine = tally_trees(&forest, Player::Primary);
                let theirs = tally_trees(&forest, Player::Opponent);
                Some(
                    GameState {
                        day,
                        last_day: day,
                        nutrients,
                        primary: PlayerState { sun, score, waiting: false, counts: mine },
                        opponent: PlayerState {
                            sun: opponent_sun,
                            score: opponent_score,
                            waiting: false,
                            counts: theirs,
                        },
                        forest,
                    },
                )
            },
        }
    }

    /// The side of `player`.
    pub fn side(&self, player: Player) -> (side: PlayerState)
        ensures
            side == self.side_of(player),
            side@ == self@.side(player),
    {
        match player {
            Player::Primary => self.primary,
            Player::Opponent => self.opponent,
        }
    }

    /// Replaces the side of `player`.
    pub fn set_side(&mut self, player: Player, side: PlayerState)
        ensures
            final(self).side_of(player) == side,
            final(self).side_of(player.opposite()) == old(self).side_of(player.opposite()),
            final(self)@ == old(self)@.with_side(player, side@),
            final(self).forest == old(self).forest,
            final(self).day == old(self).day,
            final(self).last_day == old(self).last_day,
            final(self).nutrients == old(self).nutrients,
    {
        match player {
            Player::Primary => {
                self.primary = side;
            },
            Player::Opponent => {
                self.opponent = side;
            },
        }
    }

    /// Whether every counter is small enough for one more turn.
    pub fn within_limits(&self) -> (b: bool)
        ensures
            b == self@.within_limits(),
    {
        self.primary.sun <= COUNTER_LIMIT && self.opponent.sun <= COUNTER_LIMIT
            && -COUNTER_LIMIT <= self.primary.score && self.primary.score <= COUNTER_LIMIT
            && -COUNTER_LIMIT <= self.opponent.score && self.opponent.score <= COUNTER_LIMIT
            && -COUNTER_LIMIT <= self.nutrients && self.nutrients <= COUNTER_LIMIT
    }

    /// An independent copy of the state: what happens to the copy leaves
    /// this state as it is.
    pub fn duplicate(&self) -> (copy: GameState)
        ensures
            copy@ == self@,
            copy.primary == self.primary,
            copy.opponent == self.opponent,
    {
        GameState {
            day: self.day,
            last_day: self.last_day,
            nutrients: self.nutrients,
            primary: self.primary,
            opponent: self.opponent,
            forest: self.forest.duplicate(),
        }
    }
}

} // verus!
