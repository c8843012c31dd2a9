//! The heuristic scorer: the immediate value of an action of the primary
//! player, added to its score when a rollout takes the action.

use vstd::prelude::*;
use crate::action::Action;
use crate::board::Board;
use crate::forest::{slot_wf, slots_wf, Forest, Tree};
use crate::state::{GameState, Model, COUNTER_LIMIT};
use crate::sun::{hop, tree_on};

verus! {

/// What a grown seed is worth.
pub const SPROUT_BONUS: i32 = 10;

/// The direction in which the trees cast their shadow on `day`.
pub open spec fn shadow_direction(day: int) -> int {
    day % 6
}

/// What shading the cell `c` is worth to the primary player: the size of
/// an opponent's tree on it, minus the size of an own tree, 0 without a tree.
pub open spec fn shade_value(forest: Seq<Option<Tree>>, c: int) -> int {
    match tree_on(forest, c) {
        Some(t) => if t.is_mine {
            -t.size
        } else {
            t.size as int
        },
        None => 0,
    }
}

/// What shading the first `hops` cells behind `c` in direction `d` is worth.
pub open spec fn shade_span(board: &Board, forest: Seq<Option<Tree>>, c: int, d: int, hops: nat) -> int
    decreases hops,
{
    if hops == 0 {
        0
    } else {
        shade_span(board, forest, c, d, (hops - 1) as nat) + shade_value(
            forest,
            hop(board, c, d, hops),
        )
    }
}

/// The shadow points of a tree of size `size` on cell `c` on `day`. For a
/// tree that is about to grow they are the worth of the one cell that its
/// shadow will newly reach, `size + 1` hops away; otherwise the worth of all
/// cells up to there.
pub open spec fn shadow_value(
    board: &Board,
    forest: Seq<Option<Tree>>,
    c: int,
    size: int,
    day: int,
    growing: bool,
) -> int {
    if growing {
        shade_value(forest, hop(board, c, shadow_direction(day), (size + 1) as nat))
    } else {
        shade_span(board, forest, c, shadow_direction(day), (size + 1) as nat)
    }
}

/// What the richness of a cell adds to the worth of completing a tree on it.
pub open spec fn richness_bonus(richness: int) -> int {
    if richness == 2 {
        2
    } else if richness == 3 {
        4
    } else {
        0
    }
}

/// Whether the neighbour of `c` in direction `d` is a cell on which nothing
/// can be planted any more: it holds a tree or has no richness.
pub open spec fn crowded(board: &Board, forest: Seq<Option<Tree>>, c: int, d: int) -> bool {
    let nb = board.neighbor_of(c, d);
    board.has_cell(nb) && (tree_on(forest, nb) is Some || board.richness_of(nb) == 0)
}

/// Number of directions below `upto` in which the neighbour of `c` is crowded.
pub open spec fn crowded_upto(board: &Board, forest: Seq<Option<Tree>>, c: int, upto: nat) -> int
    decreases upto,
{
    if upto == 0 {
        0
    } else {
        crowded_upto(board, forest, c, (upto - 1) as nat) + if crowded(
            board,
            forest,
            c,
            upto - 1,
        ) {
            1int
        } else {
            0int
        }
    }
}

/// Number of neighbours of `c` that hold a tree or have no richness.
pub open spec fn crowded_neighbors(board: &Board, forest: Seq<Option<Tree>>, c: int) -> int {
    crowded_upto(board, forest, c, 6)
}

/// The quotient of `a` by a positive `b`, rounded towards zero.
pub open spec fn quotient(a: int, b: int) -> int {
    if a >= 0 {
        a / b
    } else {
        -((-a) / b)
    }
}

/// The worth of completing the tree `tree`: what its shadow would have
/// cost on the next two days, from day 16 on the nutrients and the bonus of
/// the cell's richness, and 10 points from day 20 on.
pub open spec fn complete_value(board: &Board, m: Model, tree: Tree) -> int {
    let c = tree.cell_index as int;
    -shadow_value(board, m.forest, c, tree.size as int, m.day + 1, false) - shadow_value(
        board,
        m.forest,
        c,
        tree.size as int,
        m.day + 2,
        false,
    ) + (if m.day > 15 {
        m.nutrients + richness_bonus(board.richness_of(c))
    } else {
        0
    }) + (m.day / 20) * 10
}

/// The worth of growing the tree `tree`: what its longer shadow reaches on
/// the next two days, 10 points for a seed that sprouts, and from day 24
/// on 5 points and one more for each size the tree then has.
pub open spec fn grow_value(board: &Board, m: Model, tree: Tree) -> int {
    let c = tree.cell_index as int;
    shadow_value(board, m.forest, c, tree.size as int, m.day + 1, true) + shadow_value(
        board,
        m.forest,
        c,
        tree.size as int,
        m.day + 2,
        true,
    ) + (if tree.size == 0 {
        SPROUT_BONUS as int
    } else {
        0
    }) + (m.day / 24) * (5 + tree.size + 1)
}

/// The worth of a seed on `target`: minus 2 for each crowded neighbour, a
/// tenth of the distance of the index from 36, and the richness of the cell.
pub open spec fn seed_value(board: &Board, m: Model, target: int) -> int {
    -2 * crowded_neighbors(board, m.forest, target) + quotient(36 - target, 10)
        + board.richness_of(target)
}

/// The heuristic score of `action` for the primary player in state `m`.
pub open spec fn action_value(board: &Board, m: Model, action: Action) -> int {
    match action {
        Action::Complete(cell) => match m.tree_at(cell as int) {
            Some(t) => complete_value(board, m, t),
            None => 0,
        },
        Action::Grow(cell) => match m.tree_at(cell as int) {
            Some(t) => grow_value(board, m, t),
            None => 0,
        },
        Action::Seed(target, _) => seed_value(board, m, target as int),
        Action::Wait => 0,
        Action::Null => 0,
    }
}

/// The size of `n`, sign aside.
pub open spec fn magnitude(n: int) -> int {
    if n >= 0 {
        n
    } else {
        -n
    }
}

/// What shading one cell is worth lies between -3 and 3.
pub proof fn lemma_shade_value_bound(forest: Seq<Option<Tree>>, c: int)
    requires
        slots_wf(forest),
    ensures
        -3 <= shade_value(forest, c) <= 3,
{
    if 0 <= c < forest.len() {
        assert(slot_wf(forest[c], c));
    }
}

/// A span of `hops` cells is worth between -3 and 3 per cell.
pub proof fn lemma_shade_span_bound(
    board: &Board,
    forest: Seq<Option<Tree>>,
    c: int,
    d: int,
    hops: nat,
)
    requires
        slots_wf(forest),
    ensures
        -3 * hops <= shade_span(board, forest, c, d, hops) <= 3 * hops,
    decreases hops,
{
    if hops > 0 {
        lemma_shade_span_bound(board, forest, c, d, (hops - 1) as nat);
        lemma_shade_value_bound(forest, hop(board, c, d, hops));
    }
}

/// Of the first `upto` neighbours at most `upto` are crowded.
pub proof fn lemma_crowded_bound(board: &Board, forest: Seq<Option<Tree>>, c: int, upto: nat)
    ensures
        0 <= crowded_upto(board, forest, c, upto) <= upto,
    decreases upto,
{
    if upto > 0 {
        lemma_crowded_bound(board, forest, c, (upto - 1) as nat);
    }
}

/// The heuristic score of an action on a tree of the forest, or of a seed
/// on a cell of the board, is bounded by the nutrients and the size of the
/// board.
pub proof fn lemma_action_value_bound(board: &Board, m: Model, action: Action)
    requires
        board.wf(),
        m.valid(board),
        action matches Action::Seed(target, _) ==> board.has_cell(target as int),
    ensures
        -magnitude(m.nutrients) - 38 - board.size() / 10 <= action_value(board, m, action)
            <= magnitude(m.nutrients) + 38,
{
    match action {
        Action::Complete(cell) => {
            if let Some(t) = m.tree_at(cell as int) {
                assert(slot_wf(m.forest[cell as int], cell as int));
                let c = t.cell_index as int;
                lemma_shade_span_bound(
                    board,
                    m.forest,
                    c,
                    shadow_direction(m.day + 1),
                    (t.size + 1) as nat,
                );
                lemma_shade_span_bound(
                    board,
                    m.forest,
                    c,
                    shadow_direction(m.day + 2),
                    (t.size + 1) as nat,
                );
                assert(0 <= board@[c].richness <= 3);
            }
        },
        Action::Grow(cell) => {
            if let Some(t) = m.tree_at(cell as int) {
                assert(slot_wf(m.forest[cell as int], cell as int));
                let c = t.cell_index as int;
                lemma_shade_value_bound(
                    m.forest,
                    hop(board, c, shadow_direction(m.day + 1), (t.size + 1) as nat),
                );
                lemma_shade_value_bound(
                    m.forest,
                    hop(board, c, shadow_direction(m.day + 2), (t.size + 1) as nat),
                );
                let late = m.day / 24;
                let grown = 5 + t.size + 1;
                assert(0 <= late * grown <= 9) by (nonlinear_arith)
                    requires
                        0 <= late <= 1,
                        6 <= grown <= 9,
                ;
            }
        },
        Action::Seed(target, _) => {
            lemma_crowded_bound(board, m.forest, target as int, 6);
            assert(0 <= board@[target as int].richness <= 3);
        },
        Action::Wait => {},
        Action::Null => {},
    }
}

/// The shadow points of the tree on `cell` on `day`: the cells behind the
/// tree in the direction of `day` are followed for one hop more than the
/// tree's size. Each tree met counts its size, for an opponent's tree, or
/// minus its size, for a tree of the primary player. With `action_grow`
/// only the last of these cells counts, the one that the shadow reaches
/// once the tree has grown.
pub fn shadow_points(board: &Board, forest: &Forest, cell: i32, day: i32, action_grow: bool) -> (points:
    i32)
    requires
        board.wf(),
        forest.wf(),
        forest@.len() == board@.len(),
        forest.at(cell as int) is Some,
        0 <= day,
    ensures
        points == shadow_value(
            board,
            forest@,
            cell as int,
            forest.at(cell as int)->0.size as int,
            day as int,
            action_grow,
        ),
        -12 <= points <= 12,
{
    let tree = forest.get(cell).unwrap();
    assert(slot_wf(forest@[cell as int], cell as int));
    let size = tree.size;
    let direction = (day % 6) as usize;
    let ghost c = cell as int;
    let ghost d = direction as int;
    let mut current: i32 = cell;
    let mut span: i32 = 0;
    let mut last: i32 = 0;
    let mut i: i32 = 0;
    while i <= size
        invariant
            board.wf(),
            forest.wf(),
            forest@.len() == board@.len(),
            direction < 6,
            c == cell,
            d == direction,
            0 <= size <= 3,
            forest.at(cell as int) == Some(tree),
            size == tree.size,
            d == shadow_direction(day as int),
            0 <= i <= size + 1,
            board.has_cell(current as int),
            current == hop(board, c, d, i as nat),
            span == shade_span(board, forest@, c, d, i as nat),
            -3 * i <= span <= 3 * i,
            i > 0 ==> last == shade_value(forest@, hop(board, c, d, i as nat)),
            i == 0 ==> last == 0,
        decreases size + 1 - i,
    {
        match board.neighbor(current, direction) {
            None => {
                proof {
                    assert(hop(board, c, d, (i + 1) as nat) == -1);
                    crate::sun::lemma_hop_off_board(board, c, d, (i + 1) as nat, (size + 1) as nat);
                    lemma_span_off_board(board, forest@, c, d, i as nat, (size + 1) as nat);
                    assert(shade_value(forest@, -1) == 0);
                }
                if action_grow {
                    return 0;
                } else {
                    return span;
                }
            },
            Some(next) => {
                let gain = match forest.get(next) {
                    Some(t) => {
                        assert(slot_wf(forest@[next as int], next as int));
                        if t.is_mine {
                            -t.size
                        } else {
                            t.size
                        }
                    },
                    None => 0,
                };
                span = span + gain;
                last = gain;
                current = next;
            },
        }
        i += 1;
    }
    if action_grow {
        last
    } else {
        span
    }
}

/// Once the board has ended, a longer span is worth no more.
pub proof fn lemma_span_off_board(
    board: &Board,
    forest: Seq<Option<Tree>>,
    c: int,
    d: int,
    k: nat,
    m: nat,
)
    requires
        hop(board, c, d, k + 1) == -1,
        k <= m,
    ensures
        shade_span(board, forest, c, d, m) == shade_span(board, forest, c, d, k),
    decreases m,
{
    if m > k {
        lemma_span_off_board(board, forest, c, d, k, (m - 1) as nat);
        crate::sun::lemma_hop_off_board(board, c, d, k + 1, m);
    }
}

/// Number of neighbours of `cell` that hold a tree or have no richness.
pub fn count_crowded(board: &Board, forest: &Forest, cell: i32) -> (n: i32)
    requires
        board.wf(),
        forest@.len() == board@.len(),
        board.has_cell(cell as int),
    ensures
        n == crowded_neighbors(board, forest@, cell as int),
        0 <= n <= 6,
{
    let mut n: i32 = 0;
    let mut d: usize = 0;
    while d < 6
        invariant
            board.wf(),
            forest@.len() == board@.len(),
            board.has_cell(cell as int),
            d <= 6,
            n == crowded_upto(board, forest@, cell as int, d as nat),
            0 <= n <= d,
        decreases 6 - d,
    {
        match board.neighbor(cell, d) {
            Some(nb) => {
                if forest.contains(nb) || board.richness(nb) == 0 {
                    n += 1;
                }
            },
            None => {},
        }
        d += 1;
    }
    n
}

/// The heuristic score of `action` for the primary player in `state`. It
/// is taken before the action changes the state.
pub fn score_action(state: &GameState, board: &Board, action: &Action) -> (points: i32)
    requires
        board.wf(),
        state.valid(board),
        -COUNTER_LIMIT <= state.nutrients <= COUNTER_LIMIT,
        match *action {
            Action::Grow(cell) => state@.tree_at(cell as int) is Some,
            Action::Complete(cell) => state@.tree_at(cell as int) is Some,
            Action::Seed(target, _) => board.has_cell(target as int),
            _ => true,
        },
    ensures
        points == action_value(board, state@, *action),
        -COUNTER_LIMIT - 40 <= points <= COUNTER_LIMIT + 50,
{
    let day = state.day;
    match *action {
        Action::Complete(cell) => {
            let tree = state.forest.get(cell).unwrap();
            let mut points = -shadow_points(board, &state.forest, cell, day + 1, false)
                - shadow_points(board, &state.forest, cell, day + 2, false);
            if day > 15 {
                let richness = board.richness(cell);
                points = points + state.nutrients + if richness == 2 {
                    2
                } else if richness == 3 {
                    4
                } else {
                    0
                };
            }
            assert(slot_wf(state.forest@[cell as int], cell as int));
            points + day / 20 * 10
        },
        Action::Grow(cell) => {
            let tree = state.forest.get(cell).unwrap();
            assert(slot_wf(state.forest@[cell as int], cell as int));
            let late = day / 24;
            let grown = 5 + tree.size + 1;
            assert(0 <= late * grown <= 9) by (nonlinear_arith)
                requires
                    0 <= late <= 1,
                    6 <= grown <= 9,
            ;
            shadow_points(board, &state.forest, cell, day + 1, true) + shadow_points(
                board,
                &state.forest,
                cell,
                day + 2,
                true,
            ) + if tree.size == 0 {
                SPROUT_BONUS
            } else {
                0
            } + late * grown
        },
        Action::Seed(target, _) => {
            let crowd = count_crowded(board, &state.forest, target);
            let offset = if target <= 36 {
                (36 - target) / 10
            } else {
                -((target - 36) / 10)
            };
            -2 * crowd + offset + board.richness(target)
        },
        Action::Wait => 0,
        Action::Null => 0,
    }
}

} // verus!
