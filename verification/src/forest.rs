//! Trees, the players that own them, and the forest: at most one tree per
//! cell of the board.

use vstd::prelude::*;
use crate::board::MAX_CELLS;

verus! {

/// Largest size a tree can reach.
pub const MAX_TREE_SIZE: i32 = 3;

/// One of the two players. The planner plays for `Primary`.
#[derive(Clone, Copy, Debug, PartialEq, Eq, Structural)]
pub enum Player {
    Primary,
    Opponent,
}

impl Player {
    /// Position of the player in per-player tables: 0 for the primary
    /// player, 1 for the opponent.
    pub open spec fn idx(self) -> int {
        match self {
            Player::Primary => 0,
            Player::Opponent => 1,
        }
    }

    /// The other player, for contracts.
    pub open spec fn opposite(self) -> Player {
        match self {
            Player::Primary => Player::Opponent,
            Player::Opponent => Player::Primary,
        }
    }

    /// Position of the player in per-player tables.
    pub fn index(self) -> (i: usize)
        ensures
            i == self.idx(),
    {
        match self {
            Player::Primary => 0,
            Player::Opponent => 1,
        }
    }

    /// The other player.
    pub fn other(self) -> (p: Player)
        ensures
            p == self.opposite(),
    {
        match self {
            Player::Primary => Player::Opponent,
            Player::Opponent => Player::Primary,
        }
    }
}

/// A tree. `is_mine` says that the primary player owns it; a dormant tree
/// has acted on the current day and cannot act again before the next one.
#[derive(Clone, Copy, Debug, PartialEq, Eq, Structural)]
pub struct Tree {
    pub cell_index: i32,
    pub size: i32,
    pub is_mine: bool,
    pub is_dormant: bool,
}

impl Tree {
    /// Whether `player` owns this tree.
    pub open spec fn owned_by(self, player: Player) -> bool {
        self.is_mine == (player == Player::Primary)
    }

    /// The same tree, awake.
    pub open spec fn awake(self) -> Tree {
        Tree { is_dormant: false, ..self }
    }

    /// The same tree, dormant.
    pub open spec fn asleep(self) -> Tree {
        Tree { is_dormant: true, ..self }
    }

    /// Whether `player` owns this tree.
    pub fn belongs_to(&self, player: Player) -> (b: bool)
        ensures
            b == self.owned_by(player),
    {
        match player {
            Player::Primary => self.is_mine,
            Player::Opponent => !self.is_mine,
        }
    }
}

/// Whether `slot` is a valid content for cell `i`: empty, or a tree that
/// records `i` as its place and has a size from 0 to 3.
pub open spec fn slot_wf(slot: Option<Tree>, i: int) -> bool {
    slot matches Some(t) ==> t.cell_index == i && 0 <= t.size <= MAX_TREE_SIZE
}

/// Whether `slots` is a valid forest.
pub open spec fn slots_wf(slots: Seq<Option<Tree>>) -> bool {
    &&& slots.len() <= MAX_CELLS
    &&& forall|i: int| 0 <= i < slots.len() ==> slot_wf(#[trigger] slots[i], i)
}

/// Number of trees in `slots` that satisfy `pred`.
pub open spec fn count_trees(slots: Seq<Option<Tree>>, pred: spec_fn(Tree) -> bool) -> nat
    decreases slots.len(),
{
    if slots.len() == 0 {
        0
    } else {
        count_trees(slots.drop_last(), pred) + hit(slots.last(), pred)
    }
}

/// 1 if `slot` holds a tree that satisfies `pred`, else 0.
pub open spec fn hit(slot: Option<Tree>, pred: spec_fn(Tree) -> bool) -> nat {
    match slot {
        Some(t) => if pred(t) { 1 } else { 0 },
        None => 0,
    }
}

/// The trees of `player` that have size `size`.
pub open spec fn of_kind(player: Player, size: int) -> spec_fn(Tree) -> bool {
    |t: Tree| t.owned_by(player) && t.size == size
}

/// The trees that can still act today.
pub open spec fn is_awake() -> spec_fn(Tree) -> bool {
    |t: Tree| !t.is_dormant
}

/// Number of trees of `player` with size `size`.
pub open spec fn census(slots: Seq<Option<Tree>>, player: Player, size: int) -> nat {
    count_trees(slots, of_kind(player, size))
}

/// Number of trees that are not dormant.
pub open spec fn awake_trees(slots: Seq<Option<Tree>>) -> nat {
    count_trees(slots, is_awake())
}

/// A slot with its tree, if any, woken up.
pub open spec fn woken_slot(slot: Option<Tree>) -> Option<Tree> {
    match slot {
        Some(t) => Some(t.awake()),
        None => None,
    }
}

/// The forest `slots` at the start of a new day: every tree awake.
pub open spec fn woken(slots: Seq<Option<Tree>>) -> Seq<Option<Tree>> {
    Seq::new(slots.len(), |i: int| woken_slot(slots[i]))
}

/// A forest of `n` cells without trees.
pub open spec fn bare(n: nat) -> Seq<Option<Tree>> {
    Seq::new(n, |i: int| None::<Tree>)
}

/// The forest of `n` cells that holds `trees`, planted in order: a later
/// tree replaces an earlier one on the same cell.
pub open spec fn planted(n: nat, trees: Seq<Tree>) -> Seq<Option<Tree>>
    decreases trees.len(),
{
    if trees.len() == 0 {
        bare(n)
    } else {
        planted(n, trees.drop_last()).update(trees.last().cell_index as int, Some(trees.last()))
    }
}

/// Whether `tree` can stand in a forest of `n` cells.
pub open spec fn tree_fits(tree: Tree, n: int) -> bool {
    0 <= tree.cell_index < n && 0 <= tree.size <= MAX_TREE_SIZE
}

/// A count never exceeds the number of cells.
pub proof fn lemma_count_bound(slots: Seq<Option<Tree>>, pred: spec_fn(Tree) -> bool)
    ensures
        count_trees(slots, pred) <= slots.len(),
    decreases slots.len(),
{
    if slots.len() > 0 {
        lemma_count_bound(slots.drop_last(), pred);
    }
}

/// Replacing the content of one cell changes a count by what left and what
/// came.
pub proof fn lemma_count_update(
    slots: Seq<Option<Tree>>,
    pred: spec_fn(Tree) -> bool,
    i: int,
    slot: Option<Tree>,
)
    requires
        0 <= i < slots.len(),
    ensures
        count_trees(slots.update(i, slot), pred) + hit(slots[i], pred) == count_trees(slots, pred)
            + hit(slot, pred),
    decreases slots.len(),
{
    let after = slots.update(i, slot);
    if i == slots.len() - 1 {
        assert(after.drop_last() =~= slots.drop_last());
    } else {
        assert(after.drop_last() =~= slots.drop_last().update(i, slot));
        lemma_count_update(slots.drop_last(), pred, i, slot);
    }
}

/// Counting a prefix that is one cell longer adds that cell.
pub proof fn lemma_count_step(slots: Seq<Option<Tree>>, pred: spec_fn(Tree) -> bool, i: int)
    requires
        0 <= i < slots.len(),
    ensures
        count_trees(slots.take(i + 1), pred) == count_trees(slots.take(i), pred) + hit(
            slots[i],
            pred,
        ),
{
    assert(slots.take(i + 1).drop_last() =~= slots.take(i));
}

/// Waking every tree keeps the number of trees of each player and size.
pub proof fn lemma_census_woken(slots: Seq<Option<Tree>>, player: Player, size: int)
    ensures
        census(woken(slots), player, size) == census(slots, player, size),
    decreases slots.len(),
{
    if slots.len() > 0 {
        assert(woken(slots).drop_last() =~= woken(slots.drop_last()));
        lemma_census_woken(slots.drop_last(), player, size);
    }
}

/// The forest: one slot per cell of the board, each empty or holding the
/// tree that stands there.
pub struct Forest {
    slots: Vec<Option<Tree>>,
}

impl View for Forest {
    type V = Seq<Option<Tree>>;

    closed spec fn view(&self) -> Seq<Option<Tree>> {
        self.slots@
    }
}

impl Forest {
    /// The forest's invariant.
    pub open spec fn wf(&self) -> bool {
        slots_wf(self@)
    }

    /// The tree on cell `c`, if any; `None` too where `c` is no cell.
    pub open spec fn at(&self, c: int) -> Option<Tree> {
        if 0 <= c < self@.len() {
            self@[c]
        } else {
            None
        }
    }

    /// A forest of `cells` cells without trees.
    pub fn new(cells: usize) -> (forest: Forest)
        requires
            cells <= MAX_CELLS,
        ensures
            forest@ == bare(cells as nat),
            forest.wf(),
    {
        let mut slots: Vec<Option<Tree>> = Vec::new();
        let mut i: usize = 0;
        while i < cells
            invariant
                i <= cells,
                slots@ == bare(i as nat),
            decreases cells - i,
        {
            slots.push(None);
            i += 1;
            assert(slots@ =~= bare(i as nat));
        }
        Forest { slots }
    }

    /// The forest of `cells` cells that holds `trees`. Where two trees name
    /// the same cell the later one stays. Returns `None` when a tree names no
    /// cell of the forest or has no valid size.
    pub fn from_trees(cells: usize, trees: &Vec<Tree>) -> (forest: Option<Forest>)
        requires
            cells <= MAX_CELLS,
        ensures
            forest is Some <==> forall|k: int|
                0 <= k < trees.len() ==> tree_fits(#[trigger] trees[k], cells as int),
            forest matches Some(f) ==> f@ == planted(cells as nat, trees@) && f.wf() && f@.len()
                == cells,
    {
        let mut forest = Forest::new(cells);
        let mut k: usize = 0;
        while k < trees.len()
            invariant
                k <= trees.len(),
                cells <= MAX_CELLS,
                forest.wf(),
                forest@.len() == cells,
                forest@ == planted(cells as nat, trees@.take(k as int)),
                forall|j: int| 0 <= j < k ==> tree_fits(#[trigger] trees[j], cells as int),
            decreases trees.len() - k,
        {
            let tree = trees[k];
            if tree.cell_index < 0 || tree.cell_index as usize >= cells || tree.size < 0
                || tree.size > MAX_TREE_SIZE {
                assert(!tree_fits(trees[k as int], cells as int));
                return None;
            }
            forest.insert(tree);
            proof {
                assert(trees@.take(k + 1).drop_last() =~= trees@.take(k as int));
            }
            k += 1;
        }
        assert(trees@.take(k as int) =~= trees@);
        Some(forest)
    }

    /// Number of cells.
    pub fn len(&self) -> (n: usize)
        ensures
            n == self@.len(),
    {
        self.slots.len()
    }

    /// The tree on `cell`, if any.
    pub fn get(&self, cell: i32) -> (tree: Option<Tree>)
        ensures
            tree == self.at(cell as int),
    {
        if cell < 0 || cell as usize >= self.slots.len() {
            None
        } else {
            self.slots[cell as usize]
        }
    }

    /// Whether a tree stands on `cell`.
    pub fn contains(&self, cell: i32) -> (b: bool)
        ensures
            b == self.at(cell as int).is_some(),
    {
        self.get(cell).is_some()
    }

    /// Puts `tree` on its cell, in place of what stood there.
    pub fn insert(&mut self, tree: Tree)
        requires
            old(self).wf(),
            tree_fits(tree, old(self)@.len() as int),
        ensures
            final(self)@ == old(self)@.update(tree.cell_index as int, Some(tree)),
            final(self).wf(),
    {
        self.slots[tree.cell_index as usize] = Some(tree);
    }

    /// Clears `cell`.
    pub fn remove(&mut self, cell: i32)
        requires
            old(self).wf(),
            0 <= cell < old(self)@.len(),
        ensures
            final(self)@ == old(self)@.update(cell as int, None),
            final(self).wf(),
    {
        self.slots[cell as usize] = None;
    }

    /// Wakes every tree: a new day begins.
    pub fn wake_all(&mut self)
        requires
            old(self).wf(),
        ensures
            final(self)@ == woken(old(self)@),
            final(self).wf(),
    {
        let n = self.slots.len();
        let mut i: usize = 0;
        while i < n
            invariant
                i <= n,
                n == self.slots@.len(),
                n == old(self)@.len(),
                forall|k: int| 0 <= k < i ==> self.slots@[k] == woken_slot(#[trigger] old(self)@[k]),
                forall|k: int| i <= k < n ==> self.slots@[k] == #[trigger] old(self)@[k],
            decreases n - i,
        {
            match self.slots[i] {
                Some(t) => {
                    self.slots[i] = Some(
                        Tree {
                            cell_index: t.cell_index,
                            size: t.size,
                            is_mine: t.is_mine,
                            is_dormant: false,
                        },
                    );
                },
                None => {},
            }
            i += 1;
        }
        assert(self.slots@ =~= woken(old(self)@));
    }

    /// An independent copy of the forest.
    pub fn duplicate(&self) -> (copy: Forest)
        ensures
            copy@ == self@,
    {
        let mut slots: Vec<Option<Tree>> = Vec::new();
        let mut i: usize = 0;
        while i < self.slots.len()
            invariant
                i <= self.slots.len(),
                slots@ == self.slots@.take(i as int),
            decreases self.slots.len() - i,
        {
            slots.push(self.slots[i]);
            i += 1;
            assert(slots@ =~= self.slots@.take(i as int));
        }
        assert(self.slots@.take(i as int) =~= self.slots@);
        Forest { slots }
    }
}

} // verus!
