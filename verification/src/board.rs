//! The immutable hexagonal board: cells, their richness and their six
//! neighbour links.

use vstd::prelude::*;

verus! {

/// Number of neighbour directions of a cell.
pub const DIRECTIONS: usize = 6;

/// Largest number of cells a board may hold.
pub const MAX_CELLS: usize = 1_048_576;

/// Highest richness level of a cell.
pub const MAX_RICHNESS: i32 = 3;

/// One cell of the board. A neighbour entry of `-1` means that the board
/// ends in that direction.
#[derive(Clone, Copy, Debug)]
pub struct Cell {
    pub index: i32,
    pub richness: i32,
    pub neighbors: [i32; 6],
}

/// Whether `cells` is a board in index order: cell `i` sits at position
/// `i`, every richness is a level between 0 and 3, and every neighbour link
/// is either `-1` or the index of a cell of the board.
pub open spec fn cells_wf(cells: Seq<Cell>) -> bool {
    &&& cells.len() <= MAX_CELLS
    &&& forall|i: int| 0 <= i < cells.len() ==> cell_wf(#[trigger] cells[i], i, cells.len() as int)
}

/// Whether `cell` is a well-formed cell at position `i` of a board of `n` cells.
pub open spec fn cell_wf(cell: Cell, i: int, n: int) -> bool {
    &&& cell.index == i
    &&& 0 <= cell.richness <= MAX_RICHNESS
    &&& forall|d: int| 0 <= d < 6 ==> -1 <= #[trigger] cell.neighbors[d] < n
}

/// Whether `cell` can belong to a board of `n` cells: its index names a
/// position of the board, its richness is a level between 0 and 3, and
/// every neighbour link is either `-1` or the index of a cell of the board.
pub open spec fn cell_fits(cell: Cell, n: int) -> bool {
    0 <= cell.index < n && cell_wf(cell, cell.index as int, n)
}

/// Whether one of the first `k` cells of `cells` has index `i`.
pub open spec fn placed(cells: Seq<Cell>, k: int, i: int) -> bool {
    exists|j: int| 0 <= j < k && (#[trigger] cells[j]).index == i
}

/// Whether one of `cells` has index `i`.
pub open spec fn names(cells: Seq<Cell>, i: int) -> bool {
    placed(cells, cells.len() as int, i)
}

/// Whether `cells`, in whatever order, describe a board: each cell can
/// belong to a board of as many cells, no index is repeated, and none is
/// missing.
pub open spec fn cells_fit(cells: Seq<Cell>) -> bool {
    &&& cells.len() <= MAX_CELLS
    &&& forall|k: int| 0 <= k < cells.len() ==> cell_fits(#[trigger] cells[k], cells.len() as int)
    &&& forall|j: int, k: int|
        0 <= j < k < cells.len() ==> (#[trigger] cells[j]).index != (#[trigger] cells[k]).index
    &&& forall|i: int| 0 <= i < cells.len() ==> #[trigger] names(cells, i)
}

impl Cell {
    /// Whether the cell can belong to a board of `n` cells.
    pub fn fits(&self, n: usize) -> (b: bool)
        requires
            n <= MAX_CELLS,
        ensures
            b == cell_fits(*self, n as int),
    {
        if self.index < 0 || self.index >= n as i32 || self.richness < 0 || self.richness
            > MAX_RICHNESS {
            return false;
        }
        let mut d: usize = 0;
        while d < 6
            invariant
                d <= 6,
                n <= MAX_CELLS,
                forall|e: int| 0 <= e < d ==> -1 <= #[trigger] self.neighbors[e] < n,
            decreases 6 - d,
        {
            let nb = self.neighbors[d];
            if nb < -1 || nb >= n as i32 {
                return false;
            }
            d += 1;
        }
        true
    }
}

/// The board. It is built once and only read afterwards.
pub struct Board {
    cells: Vec<Cell>,
}

impl View for Board {
    type V = Seq<Cell>;

    closed spec fn view(&self) -> Seq<Cell> {
        self.cells@
    }
}

impl Board {
    /// The board's invariant.
    pub open spec fn wf(&self) -> bool {
        cells_wf(self@)
    }

    /// Number of cells, as a mathematical integer.
    pub open spec fn size(&self) -> int {
        self@.len() as int
    }

    /// Whether `c` is the index of a cell of this board.
    pub open spec fn has_cell(&self, c: int) -> bool {
        0 <= c < self@.len()
    }

    /// Richness of cell `c`.
    pub open spec fn richness_of(&self, c: int) -> int {
        self@[c].richness as int
    }

    /// The neighbour of cell `c` in direction `d`, or `-1` where the board
    /// ends (and for a `c` that is no cell).
    pub open spec fn neighbor_of(&self, c: int, d: int) -> int {
        if self.has_cell(c) && 0 <= d < 6 {
            self@[c].neighbors[d] as int
        } else {
            -1
        }
    }

    /// Builds a board from its cells, which may come in any order: each
    /// cell is put at the position that its index names. Returns `None` when
    /// the cells do not describe a board: an index is missing or repeated,
    /// or a cell has no valid richness or a link that leaves the board.
    pub fn new(cells: Vec<Cell>) -> (board: Option<Board>)
        ensures
            board is Some <==> cells_fit(cells@),
            board matches Some(b) ==> b.wf() && b@.len() == cells.len() && forall|k: int|
                0 <= k < cells.len() ==> b@[(#[trigger] cells[k]).index as int] == cells[k],
    {
        let n = cells.len();
        if n > MAX_CELLS {
            return None;
        }
        let mut slots: Vec<Option<Cell>> = Vec::new();
        while slots.len() < n
            invariant
                slots.len() <= n,
                forall|i: int| 0 <= i < slots.len() ==> (#[trigger] slots[i]) is None,
            decreases n - slots.len(),
        {
            slots.push(None);
        }
        let mut k: usize = 0;
        while k < n
            invariant
                n == cells.len(),
                n == slots.len(),
                n <= MAX_CELLS,
                k <= n,
                forall|j: int| 0 <= j < k ==> cell_fits(#[trigger] cells[j], n as int),
                forall|j: int|
                    0 <= j < k ==> slots[(#[trigger] cells[j]).index as int] == Some(cells[j]),
                forall|i: int|
                    0 <= i < n ==> ((#[trigger] slots[i]) matches Some(c) ==> c.index == i
                        && cell_fits(c, n as int) && placed(cells@, k as int, i)),
                forall|a: int, b: int|
                    0 <= a < b < k ==> (#[trigger] cells[a]).index != (#[trigger] cells[b]).index,
            decreases n - k,
        {
            let cell = cells[k];
            if !cell.fits(n) {
                return None;
            }
            let at = cell.index as usize;
            if slots[at].is_some() {
                proof {
                    let j = choose|j: int| 0 <= j < k && (#[trigger] cells@[j]).index == at;
                    assert(cells[j].index == cells[k as int].index);
                }
                return None;
            }
            let ghost before = slots@;
            slots[at] = Some(cell);
            proof {
                assert forall|j: int| 0 <= j < k + 1 implies slots[(#[trigger] cells[j]).index as int]
                    == Some(cells[j]) by {
                    if j < k {
                        assert(before[cells[j].index as int] == Some(cells[j]));
                    }
                }
                assert forall|i: int| 0 <= i < n implies ((#[trigger] slots[i]) matches Some(c)
                    ==> c.index == i && cell_fits(c, n as int) && placed(cells@, k + 1, i)) by {
                    if i == at {
                        assert(cells@[k as int].index == i);
                    } else if let Some(c) = before[i] {
                        let j = choose|j: int| 0 <= j < k && (#[trigger] cells@[j]).index == i;
                        assert(cells@[j].index == i);
                    }
                }
                assert forall|a: int, b: int| 0 <= a < b < k + 1 implies (#[trigger] cells[a]).index
                    != (#[trigger] cells[b]).index by {
                    if b == k {
                        assert(before[cells[a].index as int] == Some(cells[a]));
                    }
                }
            }
            k += 1;
        }
        let mut ordered: Vec<Cell> = Vec::new();
        let mut i: usize = 0;
        while i < n
            invariant
                n == cells.len(),
                n == slots.len(),
                n <= MAX_CELLS,
                i <= n,
                ordered.len() == i,
                forall|j: int|
                    0 <= j < n ==> slots[(#[trigger] cells[j]).index as int] == Some(cells[j]),
                forall|j: int| 0 <= j < n ==> cell_fits(#[trigger] cells[j], n as int),
                forall|p: int|
                    0 <= p < n ==> ((#[trigger] slots[p]) matches Some(c) ==> c.index == p
                        && cell_fits(c, n as int) && placed(cells@, n as int, p)),
                forall|p: int| 0 <= p < i ==> slots[p] == Some(#[trigger] ordered[p]),
            decreases n - i,
        {
            match slots[i] {
                Some(cell) => {
                    ordered.push(cell);
                },
                None => {
                    proof {
                        if names(cells@, i as int) {
                            let j = choose|j: int|
                                0 <= j < n && (#[trigger] cells@[j]).index == i;
                            assert(slots[cells[j].index as int] == Some(cells[j]));
                        }
                    }
                    return None;
                },
            }
            i += 1;
        }
        proof {
            assert forall|p: int| 0 <= p < n implies cell_wf(#[trigger] ordered@[p], p, n as int) by {
                assert(slots[p] == Some(ordered[p]));
            }
            assert forall|p: int| 0 <= p < n implies #[trigger] names(cells@, p) by {
                assert(slots[p] == Some(ordered[p]));
            }
            assert forall|j: int| 0 <= j < n implies ordered@[(#[trigger] cells[j]).index as int]
                == cells[j] by {
                assert(slots[cells[j].index as int] == Some(cells[j]));
                assert(slots[cells[j].index as int] == Some(ordered[cells[j].index as int]));
            }
        }
        Some(Board { cells: ordered })
    }

    /// Number of cells.
    pub fn len(&self) -> (n: usize)
        ensures
            n == self.size(),
    {
        self.cells.len()
    }

    /// Richness of `cell`.
    pub fn richness(&self, cell: i32) -> (r: i32)
        requires
            self.wf(),
            self.has_cell(cell as int),
        ensures
            r == self.richness_of(cell as int),
            0 <= r <= MAX_RICHNESS,
    {
        self.cells[cell as usize].richness
    }

    /// The neighbour of `cell` in `direction`, or `None` where the board ends.
    pub fn neighbor(&self, cell: i32, direction: usize) -> (nb: Option<i32>)
        requires
            self.wf(),
            self.has_cell(cell as int),
            direction < 6,
        ensures
            nb is None <==> self.neighbor_of(cell as int, direction as int) == -1,
            nb matches Some(c) ==> c == self.neighbor_of(cell as int, direction as int)
                && self.has_cell(c as int),
    {
        let nb = self.cells[cell as usize].neighbors[direction];
        if nb == -1 {
            None
        } else {
            Some(nb)
        }
    }
}

} // verus!
