//! Sun income: what each tree earns at the start of a day, and which trees
//! stand in another tree's shadow.

use vstd::prelude::*;
use crate::board::Board;
use crate::forest::{Forest, Player, Tree};

verus! {

/// How many cells a shadow is followed.
pub const SHADOW_REACH: usize = 3;

/// The direction in which shadows are looked for on `day`.
pub open spec fn sun_direction(day: int) -> int {
    (day + 3) % 6
}

/// The cell reached from `c` after `k` hops in direction `d`, or `-1`
/// where the board ends before that.
pub open spec fn hop(board: &Board, c: int, d: int, k: nat) -> int
    decreases k,
{
    if k == 0 {
        c
    } else {
        board.neighbor_of(hop(board, c, d, (k - 1) as nat), d)
    }
}

/// The tree on cell `c` of `forest`, if `c` is a cell and holds one.
pub open spec fn tree_on(forest: Seq<Option<Tree>>, c: int) -> Option<Tree> {
    if 0 <= c < forest.len() {
        forest[c]
    } else {
        None
    }
}

/// Whether the tree met at hop number `i` (counted from 0) shades a tree of
/// size `size`: it is taller than `i` and at least as tall as that tree.
pub open spec fn blocks(forest: Seq<Option<Tree>>, at: int, i: int, size: int) -> bool {
    tree_on(forest, at) matches Some(t) && t.size > i && t.size >= size
}

/// Whether a tree of size `size` on cell `c` is shaded when shadows are
/// looked for in direction `d`.
pub open spec fn shaded(board: &Board, forest: Seq<Option<Tree>>, c: int, size: int, d: int) -> bool {
    exists|i: int|
        0 <= i < SHADOW_REACH && #[trigger] blocks(forest, hop(board, c, d, (i + 1) as nat), i, size)
}

/// The sun that a tree of size `size` on cell `c` earns: nothing when it is
/// shaded, else its size.
pub open spec fn tree_income(
    board: &Board,
    forest: Seq<Option<Tree>>,
    c: int,
    size: int,
    d: int,
) -> int {
    if shaded(board, forest, c, size, d) {
        0
    } else {
        size
    }
}

/// What cell `c` earns for `player`: the income of the tree on it, if the
/// player owns one there.
pub open spec fn cell_income(
    board: &Board,
    forest: Seq<Option<Tree>>,
    player: Player,
    c: int,
    d: int,
) -> int {
    match tree_on(forest, c) {
        Some(t) => if t.owned_by(player) {
            tree_income(board, forest, c, t.size as int, d)
        } else {
            0
        },
        None => 0,
    }
}

/// What the first `n` cells earn for `player`.
pub open spec fn income_upto(
    board: &Board,
    forest: Seq<Option<Tree>>,
    player: Player,
    d: int,
    n: nat,
) -> int
    decreases n,
{
    if n == 0 {
        0
    } else {
        income_upto(board, forest, player, d, (n - 1) as nat) + cell_income(
            board,
            forest,
            player,
            (n - 1) as int,
            d,
        )
    }
}

/// The sun income of `player` on `day`: the sum over the player's trees of
/// what each earns.
pub open spec fn income(board: &Board, forest: Seq<Option<Tree>>, player: Player, day: int) -> int {
    income_upto(board, forest, player, sun_direction(day), forest.len())
}

/// The income of the first `n` cells lies between 0 and 3 per cell.
pub proof fn lemma_income_bound(
    board: &Board,
    forest: Seq<Option<Tree>>,
    player: Player,
    d: int,
    n: nat,
)
    requires
        crate::forest::slots_wf(forest),
        n <= forest.len(),
    ensures
        0 <= income_upto(board, forest, player, d, n) <= 3 * n,
    decreases n,
{
    if n > 0 {
        lemma_income_bound(board, forest, player, d, (n - 1) as nat);
        assert(crate::forest::slot_wf(forest[n - 1], n - 1));
    }
}

/// The direction in which shadows are looked for on `day`.
pub fn direction_of(day: i32) -> (d: usize)
    requires
        0 <= day <= i32::MAX - 3,
    ensures
        d == sun_direction(day as int),
        d < 6,
{
    ((day + 3) % 6) as usize
}

/// The sun that `tree` earns when shadows are looked for in `direction`:
/// the cells behind it are followed for up to three hops, and a tree met at
/// hop `i` that is taller than `i` and at least as tall as `tree` leaves it
/// with nothing.
pub fn sun_from_tree(board: &Board, forest: &Forest, tree: &Tree, direction: usize) -> (sun: i32)
    requires
        board.wf(),
        forest@.len() == board@.len(),
        board.has_cell(tree.cell_index as int),
        direction < 6,
    ensures
        sun == tree_income(
            board,
            forest@,
            tree.cell_index as int,
            tree.size as int,
            direction as int,
        ),
{
    let ghost c = tree.cell_index as int;
    let ghost d = direction as int;
    let mut current: i32 = tree.cell_index;
    let mut i: usize = 0;
    while i < SHADOW_REACH
        invariant
            board.wf(),
            forest@.len() == board@.len(),
            direction < 6,
            c == tree.cell_index,
            d == direction,
            i <= SHADOW_REACH,
            board.has_cell(current as int),
            current == hop(board, c, d, i as nat),
            forall|j: int|
                0 <= j < i ==> !#[trigger] blocks(
                    forest@,
                    hop(board, c, d, (j + 1) as nat),
                    j,
                    tree.size as int,
                ),
        decreases SHADOW_REACH - i,
    {
        match board.neighbor(current, direction) {
            None => {
                proof {
                    assert forall|j: int| 0 <= j < SHADOW_REACH implies !#[trigger] blocks(
                        forest@,
                        hop(board, c, d, (j + 1) as nat),
                        j,
                        tree.size as int,
                    ) by {
                        if j >= i {
                            lemma_hop_off_board(board, c, d, (i + 1) as nat, (j + 1) as nat);
                        }
                    }
                }
                return tree.size;
            },
            Some(next) => {
                match forest.get(next) {
                    Some(t) => {
                        if t.size > i as i32 && t.size >= tree.size {
                            assert(blocks(
                                forest@,
                                hop(board, c, d, (i + 1) as nat),
                                i as int,
                                tree.size as int,
                            ));
                            return 0;
                        }
                    },
                    None => {},
                }
                current = next;
            },
        }
        i += 1;
    }
    tree.size
}

/// Once the board has ended, every further hop stays off the board.
pub proof fn lemma_hop_off_board(board: &Board, c: int, d: int, k: nat, m: nat)
    requires
        hop(board, c, d, k) == -1,
        k <= m,
    ensures
        hop(board, c, d, m) == -1,
    decreases m,
{
    if m > k {
        lemma_hop_off_board(board, c, d, k, (m - 1) as nat);
    }
}

/// The sun income of `player` on `day`.
pub fn sun_income(board: &Board, forest: &Forest, player: Player, day: i32) -> (sun: i32)
    requires
        board.wf(),
        forest.wf(),
        forest@.len() == board@.len(),
        0 <= day <= i32::MAX - 3,
    ensures
        sun == income(board, forest@, player, day as int),
        0 <= sun <= 3 * forest@.len(),
{
    let direction = direction_of(day);
    let n = forest.len();
    let mut total: i32 = 0;
    let mut i: usize = 0;
    while i < n
        invariant
            board.wf(),
            forest.wf(),
            forest@.len() == board@.len(),
            n == forest@.len(),
            i <= n,
            direction < 6,
            total == income_upto(board, forest@, player, direction as int, i as nat),
            0 <= total <= 3 * i,
        decreases n - i,
    {
        proof {
            lemma_income_bound(board, forest@, player, direction as int, (i + 1) as nat);
        }
        match forest.get(i as i32) {
            Some(t) => {
                if t.belongs_to(player) && t.size > 0 {
                    assert(crate::forest::slot_wf(forest@[i as int], i as int));
                    let earned = sun_from_tree(board, forest, &t, direction);
                    total = total + earned;
                }
            },
            None => {},
        }
        i += 1;
    }
    total
}

} // verus!
