//! The rules of the game in mathematical form: what an action costs and when
//! a player may take it.

use vstd::prelude::*;
use crate::action::Action;
use crate::board::Board;
use crate::forest::{Player, Tree};
use crate::state::{GameState, Model};

verus! {

/// What completing a tree costs.
pub const COMPLETE_COST: i32 = 4;

/// A player with fewer sun points than this can only wait.
pub const WAIT_BELOW: i32 = 4;

/// A player with this many trees or more throws no seeds.
pub const SEED_TREE_LIMIT: i32 = 8;

/// The fixed part of the cost of growing a tree of size `size`.
pub open spec fn grow_base(size: int) -> int {
    if size == 0 {
        0
    } else if size == 1 {
        1
    } else if size == 2 {
        3
    } else {
        7
    }
}

/// What growing a tree of size `size` costs `player`: the fixed part and
/// one sun point for each tree that the player already has at the next size.
pub open spec fn grow_cost(m: Model, player: Player, size: int) -> int {
    grow_base(size) + m.count(player, size + 1)
}

/// What seeding costs `player`: the number of seeds the player has in the
/// forest.
pub open spec fn seed_cost(m: Model, player: Player) -> int {
    m.count(player, 0)
}

/// What `action` costs `player`.
pub open spec fn action_cost(m: Model, player: Player, action: Action) -> int {
    match action {
        Action::Grow(cell) => match m.tree_at(cell as int) {
            Some(t) => grow_cost(m, player, t.size as int),
            None => 0,
        },
        Action::Seed(_, _) => seed_cost(m, player),
        Action::Complete(_) => COMPLETE_COST as int,
        Action::Wait => 0,
        Action::Null => 0,
    }
}

/// Whether `tree` can act for `player` today.
pub open spec fn can_act(tree: Tree, player: Player) -> bool {
    tree.owned_by(player) && !tree.is_dormant
}

/// Whether `player` may grow the tree on `cell`.
pub open spec fn can_grow(m: Model, player: Player, cell: int) -> bool {
    m.tree_at(cell) matches Some(t) && can_act(t, player) && t.size < 3 && grow_cost(
        m,
        player,
        t.size as int,
    ) <= m.side(player).sun
}

/// Whether `player` may complete the tree on `cell`.
pub open spec fn can_complete(m: Model, player: Player, cell: int) -> bool {
    m.tree_at(cell) matches Some(t) && can_act(t, player) && t.size == 3 && m.side(player).sun
        >= COMPLETE_COST
}

/// Whether `to` is the neighbour of `from` in direction `d`.
pub open spec fn linked(board: &Board, from: int, d: int, to: int) -> bool {
    0 <= d < 6 && board.has_cell(to) && board.neighbor_of(from, d) == to
}

/// Whether a walk of exactly `k` hops along neighbour links leads from
/// `from` to `to`.
pub open spec fn reach(board: &Board, from: int, to: int, k: nat) -> bool
    decreases k,
{
    if k == 0 {
        to == from
    } else {
        exists|mid: int, d: int|
            reach(board, from, mid, (k - 1) as nat) && #[trigger] linked(board, mid, d, to)
    }
}

/// Whether a walk of at least one and at most `hops` hops leads from `from`
/// to `to`.
pub open spec fn within_reach(board: &Board, from: int, to: int, hops: int) -> bool {
    exists|k: int| 1 <= k <= hops && #[trigger] reach(board, from, to, k as nat)
}

/// Whether a seed can be planted on `cell`: it is a cell of the board with
/// some richness and without a tree.
pub open spec fn plantable(board: &Board, m: Model, cell: int) -> bool {
    board.has_cell(cell) && board.richness_of(cell) > 0 && m.tree_at(cell) is None
}

/// Whether `player` may throw a seed from the tree on `origin` to `target`.
pub open spec fn can_seed(board: &Board, m: Model, player: Player, target: int, origin: int) -> bool {
    &&& m.tree_at(origin) matches Some(t) && can_act(t, player) && t.size > 0 && within_reach(
        board,
        origin,
        target,
        t.size as int,
    )
    &&& plantable(board, m, target)
    &&& seed_cost(m, player) <= m.side(player).sun
}

/// Whether the rules allow `player` to take `action` in state `m`.
pub open spec fn legal_move(board: &Board, m: Model, player: Player, action: Action) -> bool {
    match action {
        Action::Grow(cell) => can_grow(m, player, cell as int),
        Action::Complete(cell) => can_complete(m, player, cell as int),
        Action::Seed(target, origin) => can_seed(board, m, player, target as int, origin as int),
        Action::Wait => true,
        Action::Null => true,
    }
}

/// Whether `player` still throws seeds: with fewer than eight trees, and
/// before the day `threshold`.
pub open spec fn seeding_open(m: Model, player: Player, threshold: int) -> bool {
    m.total_trees(player) < SEED_TREE_LIMIT && m.day < threshold
}

/// Whether `action` is one of the grow, complete and seed actions that are
/// proposed to `player`.
pub open spec fn proposed(
    board: &Board,
    m: Model,
    player: Player,
    threshold: int,
    action: Action,
) -> bool {
    match action {
        Action::Grow(cell) => can_grow(m, player, cell as int),
        Action::Complete(cell) => can_complete(m, player, cell as int),
        Action::Seed(target, origin) => seeding_open(m, player, threshold) && can_seed(
            board,
            m,
            player,
            target as int,
            origin as int,
        ),
        Action::Wait => false,
        Action::Null => false,
    }
}

/// Whether `player` can do nothing but wait: the sun balance is below 4, or
/// no action is proposed.
pub open spec fn must_wait(board: &Board, m: Model, player: Player, threshold: int) -> bool {
    m.side(player).sun < WAIT_BELOW || forall|a: Action|
        !#[trigger] proposed(board, m, player, threshold, a)
}

/// Whether `action` belongs to the set of actions offered to `player`:
/// the proposed actions, or the wait alone where the player must wait.
pub open spec fn offered(
    board: &Board,
    m: Model,
    player: Player,
    threshold: int,
    action: Action,
) -> bool {
    if must_wait(board, m, player, threshold) {
        action == Action::Wait
    } else {
        proposed(board, m, player, threshold, action)
    }
}

/// An offered action is legal.
pub proof fn lemma_offered_is_legal(
    board: &Board,
    m: Model,
    player: Player,
    threshold: int,
    action: Action,
)
    requires
        offered(board, m, player, threshold, action),
    ensures
        legal_move(board, m, player, action),
        action != Action::Null,
{
}

/// The fixed part of the cost of growing a tree of size `size`.
pub fn base_cost(size: i32) -> (cost: i32)
    ensures
        cost == grow_base(size as int),
{
    if size == 0 {
        0
    } else if size == 1 {
        1
    } else if size == 2 {
        3
    } else {
        7
    }
}

/// What `action` costs `player` in `state`. Growing costs the fixed part
/// for the tree's size and one point per tree that the player has at the
/// next size; seeding costs one point per seed that the player has in the
/// forest; completing costs 4; waiting costs nothing.
pub fn cost_of_action(state: &GameState, board: &Board, player: Player, action: &Action) -> (cost: i32)
    requires
        state.valid(board),
        action matches Action::Grow(cell) ==> state@.tree_at(cell as int) matches Some(t)
            && t.size < 3,
    ensures
        cost == action_cost(state@, player, *action),
        0 <= cost <= 7 + board.size(),
{
    let side = state.side(player);
    proof {
        assert forall|s: int| 0 <= s < 4 implies 0 <= #[trigger] side.counts[s] <= board.size() by {
            crate::forest::lemma_count_bound(state.forest@, crate::forest::of_kind(player, s));
        }
    }
    match *action {
        Action::Grow(cell) => {
            match state.forest.get(cell) {
                Some(t) => {
                    assert(crate::forest::slot_wf(state.forest@[cell as int], cell as int));
                    base_cost(t.size) + side.counts[(t.size + 1) as usize]
                },
                None => 0,
            }
        },
        Action::Seed(_, _) => side.counts[0],
        Action::Complete(_) => COMPLETE_COST,
        Action::Wait => 0,
        Action::Null => 0,
    }
}

} // verus!
