//! The 15x15 board and the tiles placed on it.
use vstd::prelude::*;

use crate::engine::constants::BOARD_SIZE;

verus! {

/// A tile locked onto the board. `letter` is the effective face (for a blank,
/// the letter it was assigned); `is_blank` records that it scores 0.
#[derive(Debug, Clone, Copy, PartialEq, Eq, Structural)]
pub struct PlacedTile {
    pub letter: char,
    pub is_blank: bool,
}

/// A tile a player is placing this turn, before it is committed to the board.
#[derive(Debug, Clone, Copy, PartialEq, Eq, Structural)]
pub struct Placement {
    pub row: usize,
    pub col: usize,
    /// The effective face; for a blank, the chosen letter.
    pub letter: char,
    pub is_blank: bool,
}

/// The board, row-major, one cell per square.
#[derive(Debug)]
pub struct Board {
    cells: Vec<Option<PlacedTile>>,
}

/// Number of squares of the board.
pub open spec fn num_cells() -> int {
    (BOARD_SIZE * BOARD_SIZE) as int
}

/// Whether `(r, c)` is a square of the board.
pub open spec fn on_board(r: int, c: int) -> bool {
    0 <= r < BOARD_SIZE && 0 <= c < BOARD_SIZE
}

/// The tile on square `(r, c)` of a board whose cells are `cells`; off the
/// board there is none.
pub open spec fn cell_at(cells: Seq<Option<PlacedTile>>, r: int, c: int) -> Option<PlacedTile> {
    if on_board(r, c) {
        cells[r * BOARD_SIZE + c]
    } else {
        None
    }
}

/// Whether no square of the board holds a tile.
pub open spec fn all_empty(cells: Seq<Option<PlacedTile>>) -> bool {
    forall|i: int| 0 <= i < cells.len() ==> #[trigger] cells[i] is None
}

/// Reading a square gives back the tile last placed on it, and placing a
/// tile leaves every other square as it was.
pub proof fn lemma_place_then_read(
    cells: Seq<Option<PlacedTile>>,
    row: int,
    col: int,
    tile: PlacedTile,
    r: int,
    c: int,
)
    requires
        cells.len() == num_cells(),
        on_board(row, col),
    ensures
        cell_at(cells.update(row * BOARD_SIZE + col, Some(tile)), row, col) == Some(tile),
        (r, c) != (row, col) ==> cell_at(cells.update(row * BOARD_SIZE + col, Some(tile)), r, c)
            == cell_at(cells, r, c),
{
    assert(0 <= row * 15 + col < 225) by (nonlinear_arith)
        requires
            0 <= row < 15,
            0 <= col < 15,
    ;
    if on_board(r, c) && (r, c) != (row, col) {
        assert(r * 15 + c != row * 15 + col && 0 <= r * 15 + c < 225) by (nonlinear_arith)
            requires
                0 <= r < 15,
                0 <= c < 15,
                0 <= row < 15,
                0 <= col < 15,
                r != row || c != col,
        ;
    }
}

impl View for Board {
    type V = Seq<Option<PlacedTile>>;

    closed spec fn view(&self) -> Seq<Option<PlacedTile>> {
        self.cells@
    }
}

impl Clone for Board {
    fn clone(&self) -> (b: Board)
        ensures
            b@ == self@,
    {
        proof {
            use_type_invariant(self);
        }
        let n = self.cells.len();
        let mut cells: Vec<Option<PlacedTile>> = Vec::with_capacity(n);
        for k in 0..n
            invariant
                n == self.cells@.len(),
                cells@ =~= self.cells@.take(k as int),
        {
            cells.push(self.cells[k]);
        }
        assert(cells@ =~= self.cells@);
        Board { cells }
    }
}

impl Default for Board {
    fn default() -> (b: Board)
        ensures
            b.wf(),
            all_empty(b@),
    {
        Board::empty()
    }
}

impl Board {
    /// A board has exactly one cell per square; every board keeps this.
    #[verifier::type_invariant]
    pub open spec fn wf(&self) -> bool {
        self@.len() == num_cells()
    }

    pub fn empty() -> (b: Board)
        ensures
            b.wf(),
            all_empty(b@),
    {
        let mut cells: Vec<Option<PlacedTile>> = Vec::new();
        for i in 0..BOARD_SIZE * BOARD_SIZE
            invariant
                cells@.len() == i,
                all_empty(cells@),
        {
            cells.push(None);
        }
        Board { cells }
    }

    fn idx(row: usize, col: usize) -> (i: usize)
        requires
            row * BOARD_SIZE + col <= usize::MAX,
        ensures
            i == row * BOARD_SIZE + col,
    {
        row * BOARD_SIZE + col
    }

    pub fn in_bounds(row: usize, col: usize) -> (b: bool)
        ensures
            b == on_board(row as int, col as int),
    {
        row < BOARD_SIZE && col < BOARD_SIZE
    }

    pub fn get(&self, row: usize, col: usize) -> (t: Option<&PlacedTile>)
        ensures
            match t {
                Some(x) => cell_at(self@, row as int, col as int) == Some(*x),
                None => cell_at(self@, row as int, col as int) is None,
            },
    {
        proof {
            use_type_invariant(self);
        }
        if Self::in_bounds(row, col) {
            self.cells[Self::idx(row, col)].as_ref()
        } else {
            None
        }
    }

    pub fn is_occupied(&self, row: usize, col: usize) -> (b: bool)
        ensures
            b == cell_at(self@, row as int, col as int) is Some,
    {
        self.get(row, col).is_some()
    }

    pub fn is_empty(&self) -> (b: bool)
        ensures
            b == all_empty(self@),
    {
        let n = self.cells.len();
        for i in 0..n
            invariant
                n == self@.len(),
                forall|k: int| 0 <= k < i ==> #[trigger] self@[k] is None,
        {
            if self.cells[i].is_some() {
                return false;
            }
        }
        true
    }

    /// Puts `tile` on the cell at `row * BOARD_SIZE + col`.
    pub fn place(&mut self, row: usize, col: usize, tile: PlacedTile)
        requires
            row * BOARD_SIZE + col < num_cells(),
        ensures
            final(self)@ == old(self)@.update(row * BOARD_SIZE + col, Some(tile)),
    {
        proof {
            use_type_invariant(&*self);
        }
        let i = Self::idx(row, col);
        let n = self.cells.len();
        let mut cells: Vec<Option<PlacedTile>> = Vec::with_capacity(n);
        for k in 0..n
            invariant
                n == self.cells@.len(),
                i < n,
                cells@ =~= self.cells@.update(i as int, Some(tile)).take(k as int),
        {
            if k == i {
                cells.push(Some(tile));
            } else {
                cells.push(self.cells[k]);
            }
        }
        assert(cells@ =~= self.cells@.update(i as int, Some(tile)));
        self.cells = cells;
    }
}

} // verus!
