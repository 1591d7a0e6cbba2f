use crate::geometry::{Cell, Pos, MAX_BOARD_SIZE};
use vstd::prelude::*;

verus! {

/// A rectangular grid of cells, each empty or owned by a building.
///
/// Cells are stored row by row: the cell at `(x, y)` is entry
/// `y * width + x` of `cells`.
#[derive(Clone, Debug, PartialEq, Eq)]
pub struct Board {
    pub width: i8,
    pub height: i8,
    pub cells: Vec<Option<Cell>>,
}

/// The cell at column `x` of row `y` is stored within the grid.
pub proof fn lemma_index_in_range(w: int, h: int, x: int, y: int)
    requires
        0 <= x < w,
        0 <= y < h,
    ensures
        0 <= y * w + x < w * h,
{
    assert(y * w + x < w * h) by (nonlinear_arith)
        requires
            0 <= x < w,
            0 <= y < h,
    ;
    assert(0 <= y * w) by (nonlinear_arith)
        requires
            0 <= y,
            0 <= w,
    ;
}

/// Cells that are stored at one place are one cell.
pub proof fn lemma_index_injective(w: int, x1: int, y1: int, x2: int, y2: int)
    requires
        0 <= x1 < w,
        0 <= x2 < w,
        0 <= y1,
        0 <= y2,
        y1 * w + x1 == y2 * w + x2,
    ensures
        x1 == x2,
        y1 == y2,
{
    assert(y1 == y2) by (nonlinear_arith)
        requires
            0 <= x1 < w,
            0 <= x2 < w,
            0 <= y1,
            0 <= y2,
            y1 * w + x1 == y2 * w + x2,
    ;
}

/// Every place of the grid stores the cell of one column and row.
pub proof fn lemma_index_split(w: int, h: int, i: int)
    requires
        0 <= i < w * h,
        0 < w,
    ensures
        0 <= i % w < w,
        0 <= i / w < h,
        (i / w) * w + i % w == i,
{
    assert(0 <= i / w < h && (i / w) * w + i % w == i && 0 <= i % w < w) by (nonlinear_arith)
        requires
            0 <= i < w * h,
            0 < w,
    ;
}

/// A side brought into `0..=MAX_BOARD_SIZE`.
pub open spec fn spec_clamp(side: i8) -> i8 {
    if side < 0 {
        0
    } else if side > MAX_BOARD_SIZE {
        MAX_BOARD_SIZE
    } else {
        side
    }
}

impl Board {
    /// The dimensions are within limits and there is one entry per cell.
    pub open spec fn wf(self) -> bool {
        &&& 0 <= self.width <= MAX_BOARD_SIZE
        &&& 0 <= self.height <= MAX_BOARD_SIZE
        &&& self.cells@.len() == self.width * self.height
    }

    /// `p` is a cell of this board.
    pub open spec fn in_bounds(self, p: Pos) -> bool {
        0 <= p.x < self.width && 0 <= p.y < self.height
    }

    /// Where the cell at `p` is stored.
    pub open spec fn slot(self, p: Pos) -> int {
        p.y * self.width + p.x
    }

    /// What the cell at `p` holds.
    pub open spec fn at(self, p: Pos) -> Option<Cell> {
        self.cells@[self.slot(p)]
    }

    /// No cell is occupied.
    pub open spec fn is_blank(self) -> bool {
        forall|p: Pos| self.in_bounds(p) ==> self.at(p) is None
    }

    /// Both boards have the same size and hold the same cells.
    pub open spec fn same_as(self, other: Board) -> bool {
        &&& self.width == other.width
        &&& self.height == other.height
        &&& self.cells@ == other.cells@
    }

    /// Two boards of one size that agree at every position hold the same
    /// cells.
    pub proof fn lemma_same(self, other: Board)
        requires
            self.wf(),
            other.wf(),
            self.width == other.width,
            self.height == other.height,
            forall|p: Pos| self.in_bounds(p) ==> self.at(p) == other.at(p),
        ensures
            self.same_as(other),
    {
        let w = self.width as int;
        let h = self.height as int;
        assert forall|i: int| 0 <= i < self.cells@.len() implies self.cells@[i] == other.cells@[i] by {
            assert(w > 0) by (nonlinear_arith)
                requires
                    0 <= i < w * h,
                    0 <= w,
            ;
            lemma_index_split(w, h, i);
            let p = Pos { x: (i % w) as i8, y: (i / w) as i8 };
            assert(self.in_bounds(p));
            assert(self.slot(p) == i);
            assert(self.at(p) == other.at(p));
        }
        assert(self.cells@ =~= other.cells@);
    }

    /// A blank board of `width` by `height` cells, each side brought into
    /// `0..=MAX_BOARD_SIZE`.
    pub fn new(width: i8, height: i8) -> (b: Board)
        ensures
            b.wf(),
            b.width == spec_clamp(width),
            b.height == spec_clamp(height),
            b.is_blank(),
    {
        let width: i8 = if width < 0 {
            0
        } else if width > MAX_BOARD_SIZE {
            MAX_BOARD_SIZE
        } else {
            width
        };
        let height: i8 = if height < 0 {
            0
        } else if height > MAX_BOARD_SIZE {
            MAX_BOARD_SIZE
        } else {
            height
        };
        assert(width as int * height as int <= 10000) by (nonlinear_arith)
            requires
                0 <= width <= 100,
                0 <= height <= 100,
        ;
        let n: usize = width as usize * height as usize;
        let mut cells: Vec<Option<Cell>> = Vec::new();
        let mut i: usize = 0;
        while i < n
            invariant
                i <= n,
                cells@.len() == i,
                forall|j: int| 0 <= j < i ==> cells@[j] is None,
            decreases n - i,
        {
            cells.push(None);
            i += 1;
        }
        let b = Board { width, height, cells };
        assert forall|p: Pos| b.in_bounds(p) implies b.at(p) is None by {
            lemma_index_in_range(b.width as int, b.height as int, p.x as int, p.y as int);
        }
        b
    }

    /// The cell at `pos`, or `None` if `pos` is off the board.
    pub fn get(&self, pos: Pos) -> (c: Option<Option<Cell>>)
        requires
            self.wf(),
        ensures
            c == if self.in_bounds(pos) {
                Some(self.at(pos))
            } else {
                None
            },
    {
        if pos.x < 0 || pos.x >= self.width {
            return None;
        }
        if pos.y < 0 || pos.y >= self.height {
            return None;
        }
        Some(self.cell(pos))
    }

    /// Where the cell at `pos`, which is on the board, is stored.
    fn slot_of(&self, pos: Pos) -> (i: usize)
        requires
            self.wf(),
            self.in_bounds(pos),
        ensures
            i == self.slot(pos),
            i < self.cells@.len(),
    {
        proof {
            lemma_index_in_range(
                self.width as int,
                self.height as int,
                pos.x as int,
                pos.y as int,
            );
            assert(pos.y as int * self.width as int <= 10000) by (nonlinear_arith)
                requires
                    0 <= pos.y < 100,
                    0 <= self.width <= 100,
            ;
        }
        pos.y as usize * self.width as usize + pos.x as usize
    }

    /// The cell at `pos`, which is on the board.
    pub fn cell(&self, pos: Pos) -> (c: Option<Cell>)
        requires
            self.wf(),
            self.in_bounds(pos),
        ensures
            c == self.at(pos),
    {
        let i = self.slot_of(pos);
        self.cells[i]
    }

    /// Overwrites the cell at `pos`, which is on the board.
    pub fn set(&mut self, pos: Pos, cell: Option<Cell>)
        requires
            old(self).wf(),
            old(self).in_bounds(pos),
        ensures
            final(self).wf(),
            final(self).width == old(self).width,
            final(self).height == old(self).height,
            final(self).at(pos) == cell,
            final(self).cells@ == old(self).cells@.update(old(self).slot(pos), cell),
            forall|q: Pos|
                old(self).in_bounds(q) && q != pos ==> final(self).at(q) == old(self).at(q),
    {
        let i = self.slot_of(pos);
        self.cells[i] = cell;
        proof {
            assert forall|q: Pos| old(self).in_bounds(q) && q != pos implies self.at(q) == old(self).at(q) by {
                lemma_index_in_range(
                    self.width as int,
                    self.height as int,
                    q.x as int,
                    q.y as int,
                );
                if self.slot(q) == self.slot(pos) {
                    lemma_index_injective(
                        self.width as int,
                        q.x as int,
                        q.y as int,
                        pos.x as int,
                        pos.y as int,
                    );
                }
            }
        }
    }
}

} // verus!
