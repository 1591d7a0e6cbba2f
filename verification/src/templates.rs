use crate::geometry::{CellKind, Rotation};
use vstd::prelude::*;

verus! {

/// Footprint of a mine: a 2x2 inert block with the input on one short side
/// and the output on the other.
/// Each entry is an offset `(dx, dy)` from the anchor and the role of that cell;
/// one row per rotation.
pub const MINE_CELLS: [[(i8, i8, CellKind); 6]; 4] = [
    [
        (0, 0, CellKind::Inert),
        (1, 0, CellKind::Inert),
        (-1, 1, CellKind::Input),
        (0, 1, CellKind::Inert),
        (1, 1, CellKind::Inert),
        (2, 1, CellKind::Output),
    ],
    [
        (0, -1, CellKind::Input),
        (0, 0, CellKind::Inert),
        (1, 0, CellKind::Inert),
        (0, 1, CellKind::Inert),
        (1, 1, CellKind::Inert),
        (0, 2, CellKind::Output),
    ],
    [
        (-1, 0, CellKind::Output),
        (0, 0, CellKind::Inert),
        (1, 0, CellKind::Inert),
        (0, 1, CellKind::Inert),
        (1, 1, CellKind::Inert),
        (2, 0, CellKind::Input),
    ],
    [
        (1, -1, CellKind::Output),
        (0, 0, CellKind::Inert),
        (1, 0, CellKind::Inert),
        (0, 1, CellKind::Inert),
        (1, 1, CellKind::Inert),
        (1, 2, CellKind::Input),
    ],
];

/// Neighbours of a mine's input and output, each with the mine cell it touches.
/// Each entry is the neighbour's offset followed by the own cell's offset;
/// one row per rotation.
pub const ADJACENT_MINE_CELLS: [[(i8, i8, i8, i8); 6]; 4] = [
    [
        (-1, 0, -1, 1),
        (2, 0, 2, 1),
        (-2, 1, -1, 1),
        (3, 1, 2, 1),
        (-1, 2, -1, 1),
        (2, 2, 2, 1),
    ],
    [
        (0, -2, 0, -1),
        (-1, -1, 0, -1),
        (1, -1, 0, -1),
        (-1, 2, 0, 2),
        (1, 2, 0, 2),
        (0, 3, 0, 2),
    ],
    [
        (-1, -1, -1, 0),
        (2, -1, 2, 0),
        (-2, 0, -1, 0),
        (3, 0, 2, 0),
        (-1, 1, -1, 0),
        (2, 1, 2, 0),
    ],
    [
        (1, -2, 1, -1),
        (0, -1, 1, -1),
        (2, -1, 1, -1),
        (0, 2, 1, 2),
        (2, 2, 1, 2),
        (1, 3, 1, 2),
    ],
];

/// Footprint of a conveyor of length 3.
/// Each entry is an offset `(dx, dy)` from the anchor and the role of that cell;
/// one row per rotation.
pub const SMALL_CONVEYOR_CELLS: [[(i8, i8, CellKind); 3]; 4] = [
    [
        (-1, 0, CellKind::Input),
        (0, 0, CellKind::Inert),
        (1, 0, CellKind::Output),
    ],
    [
        (0, -1, CellKind::Input),
        (0, 0, CellKind::Inert),
        (0, 1, CellKind::Output),
    ],
    [
        (-1, 0, CellKind::Output),
        (0, 0, CellKind::Inert),
        (1, 0, CellKind::Input),
    ],
    [
        (0, -1, CellKind::Output),
        (0, 0, CellKind::Inert),
        (0, 1, CellKind::Input),
    ],
];

/// Neighbours of a short conveyor's two ends, each with the end it touches.
/// Each entry is the neighbour's offset followed by the own cell's offset;
/// one row per rotation.
pub const ADJACENT_SMALL_CONVEYOR_CELLS: [[(i8, i8, i8, i8); 6]; 4] = [
    [
        (-1, -1, -1, 0),
        (1, -1, 1, 0),
        (-2, 0, -1, 0),
        (2, 0, 1, 0),
        (-1, 1, -1, 0),
        (1, 1, 1, 0),
    ],
    [
        (0, -2, 0, -1),
        (-1, -1, 0, -1),
        (1, -1, 0, -1),
        (-1, 1, 0, 1),
        (1, 1, 0, 1),
        (0, 2, 0, 1),
    ],
    [
        (-1, -1, -1, 0),
        (1, -1, 1, 0),
        (-2, 0, -1, 0),
        (2, 0, 1, 0),
        (-1, 1, -1, 0),
        (1, 1, 1, 0),
    ],
    [
        (0, -2, 0, -1),
        (-1, -1, 0, -1),
        (1, -1, 0, -1),
        (-1, 1, 0, 1),
        (1, 1, 0, 1),
        (0, 2, 0, 1),
    ],
];

/// Footprint of a conveyor of length 4.
/// Each entry is an offset `(dx, dy)` from the anchor and the role of that cell;
/// one row per rotation.
pub const BIG_CONVEYOR_CELLS: [[(i8, i8, CellKind); 4]; 4] = [
    [
        (-1, 0, CellKind::Input),
        (0, 0, CellKind::Inert),
        (1, 0, CellKind::Inert),
        (2, 0, CellKind::Output),
    ],
    [
        (0, -1, CellKind::Input),
        (0, 0, CellKind::Inert),
        (0, 1, CellKind::Inert),
        (0, 2, CellKind::Output),
    ],
    [
        (-1, 0, CellKind::Output),
        (0, 0, CellKind::Inert),
        (1, 0, CellKind::Inert),
        (2, 0, CellKind::Input),
    ],
    [
        (0, -1, CellKind::Output),
        (0, 0, CellKind::Inert),
        (0, 1, CellKind::Inert),
        (0, 2, CellKind::Input),
    ],
];

/// Neighbours of a long conveyor's two ends, each with the end it touches.
/// Each entry is the neighbour's offset followed by the own cell's offset;
/// one row per rotation.
pub const ADJACENT_BIG_CONVEYOR_CELLS: [[(i8, i8, i8, i8); 6]; 4] = [
    [
        (-1, -1, -1, 0),
        (2, -1, 2, 0),
        (-2, 0, -1, 0),
        (3, 0, 2, 0),
        (-1, 1, -1, 0),
        (2, 1, 2, 0),
    ],
    [
        (0, -2, 0, -1),
        (-1, -1, 0, -1),
        (1, -1, 0, -1),
        (-1, 2, 0, 2),
        (1, 2, 0, 2),
        (0, 3, 0, 2),
    ],
    [
        (-1, -1, -1, 0),
        (2, -1, 2, 0),
        (-2, 0, -1, 0),
        (3, 0, 2, 0),
        (-1, 1, -1, 0),
        (2, 1, 2, 0),
    ],
    [
        (0, -2, 0, -1),
        (-1, -1, 0, -1),
        (1, -1, 0, -1),
        (-1, 2, 0, 2),
        (1, 2, 0, 2),
        (0, 3, 0, 2),
    ],
];

/// Footprint of a combiner: three inputs in a row, three inert cells behind
/// them, one output behind the middle.
/// Each entry is an offset `(dx, dy)` from the anchor and the role of that cell;
/// one row per rotation.
pub const COMBINER_CELLS: [[(i8, i8, CellKind); 7]; 4] = [
    [
        (-1, -1, CellKind::Input),
        (-1, 0, CellKind::Input),
        (-1, 1, CellKind::Input),
        (0, -1, CellKind::Inert),
        (0, 0, CellKind::Inert),
        (0, 1, CellKind::Inert),
        (1, 0, CellKind::Output),
    ],
    [
        (-1, -1, CellKind::Input),
        (0, -1, CellKind::Input),
        (1, -1, CellKind::Input),
        (-1, 0, CellKind::Inert),
        (0, 0, CellKind::Inert),
        (1, 0, CellKind::Inert),
        (0, 1, CellKind::Output),
    ],
    [
        (-1, 0, CellKind::Output),
        (0, -1, CellKind::Inert),
        (0, 0, CellKind::Inert),
        (0, 1, CellKind::Inert),
        (1, -1, CellKind::Input),
        (1, 0, CellKind::Input),
        (1, 1, CellKind::Input),
    ],
    [
        (0, -1, CellKind::Output),
        (-1, 0, CellKind::Inert),
        (0, 0, CellKind::Inert),
        (1, 0, CellKind::Inert),
        (-1, 1, CellKind::Input),
        (0, 1, CellKind::Input),
        (1, 1, CellKind::Input),
    ],
];

/// Neighbours of a combiner's inputs and output, each with the combiner cell
/// it touches.
/// Each entry is the neighbour's offset followed by the own cell's offset;
/// one row per rotation.
pub const ADJACENT_COMBINER_CELLS: [[(i8, i8, i8, i8); 8]; 4] = [
    [
        (-1, -2, -1, -1),
        (-2, -1, -1, -1),
        (-2, 0, -1, 0),
        (-2, 1, -1, 1),
        (-1, 2, -1, 1),
        (1, -1, 1, 0),
        (2, 0, 1, 0),
        (1, 1, 1, 0),
    ],
    [
        (-2, -1, -1, -1),
        (-1, -2, -1, -1),
        (0, -2, 0, -1),
        (1, -2, 1, -1),
        (2, -1, 1, -1),
        (-1, 1, 0, 1),
        (1, 1, 0, 1),
        (0, 2, 0, 1),
    ],
    [
        (-1, -1, -1, 0),
        (-2, 0, -1, 0),
        (-1, 1, -1, 0),
        (1, -2, 1, -1),
        (2, -1, 1, -1),
        (2, 0, 1, 0),
        (2, 1, 1, 1),
        (1, 2, 1, 1),
    ],
    [
        (0, -2, 0, -1),
        (-1, -1, 0, -1),
        (1, -1, 0, -1),
        (-2, 1, -1, 1),
        (-1, 2, -1, 1),
        (0, 2, 0, 1),
        (1, 2, 1, 1),
        (2, 1, 1, 1),
    ],
];

/// The four buildings whose footprint is a table.
#[derive(Clone, Copy, Debug, PartialEq, Eq, Structural)]
pub enum Shape {
    Mine,
    SmallConveyor,
    BigConveyor,
    Combiner,
}

impl Shape {
    /// Number of cells of the footprint.
    pub open spec fn spec_cell_count(self) -> int {
        match self {
            Shape::Mine => 6,
            Shape::SmallConveyor => 3,
            Shape::BigConveyor => 4,
            Shape::Combiner => 7,
        }
    }

    /// Entry `i` of the footprint under `rotation`.
    pub open spec fn spec_cell(self, rotation: Rotation, i: int) -> (i8, i8, CellKind) {
        match self {
            Shape::Mine => MINE_CELLS[rotation.spec_index()][i],
            Shape::SmallConveyor => SMALL_CONVEYOR_CELLS[rotation.spec_index()][i],
            Shape::BigConveyor => BIG_CONVEYOR_CELLS[rotation.spec_index()][i],
            Shape::Combiner => COMBINER_CELLS[rotation.spec_index()][i],
        }
    }

    /// Number of adjacency checks of the footprint.
    pub open spec fn spec_probe_count(self) -> int {
        match self {
            Shape::Mine => 6,
            Shape::SmallConveyor => 6,
            Shape::BigConveyor => 6,
            Shape::Combiner => 8,
        }
    }

    /// Entry `i` of the adjacency table under `rotation`.
    pub open spec fn spec_probe(self, rotation: Rotation, i: int) -> (i8, i8, i8, i8) {
        match self {
            Shape::Mine => ADJACENT_MINE_CELLS[rotation.spec_index()][i],
            Shape::SmallConveyor => ADJACENT_SMALL_CONVEYOR_CELLS[rotation.spec_index()][i],
            Shape::BigConveyor => ADJACENT_BIG_CONVEYOR_CELLS[rotation.spec_index()][i],
            Shape::Combiner => ADJACENT_COMBINER_CELLS[rotation.spec_index()][i],
        }
    }

    pub fn cell_count(self) -> (n: usize)
        ensures
            n == self.spec_cell_count(),
    {
        match self {
            Shape::Mine => 6,
            Shape::SmallConveyor => 3,
            Shape::BigConveyor => 4,
            Shape::Combiner => 7,
        }
    }

    pub fn cell(self, rotation: Rotation, i: usize) -> (c: (i8, i8, CellKind))
        requires
            i < self.spec_cell_count(),
        ensures
            c == self.spec_cell(rotation, i as int),
    {
        let r = rotation.index();
        match self {
            Shape::Mine => MINE_CELLS[r][i],
            Shape::SmallConveyor => SMALL_CONVEYOR_CELLS[r][i],
            Shape::BigConveyor => BIG_CONVEYOR_CELLS[r][i],
            Shape::Combiner => COMBINER_CELLS[r][i],
        }
    }

    pub fn probe_count(self) -> (n: usize)
        ensures
            n == self.spec_probe_count(),
    {
        match self {
            Shape::Mine => 6,
            Shape::SmallConveyor => 6,
            Shape::BigConveyor => 6,
            Shape::Combiner => 8,
        }
    }

    pub fn probe(self, rotation: Rotation, i: usize) -> (p: (i8, i8, i8, i8))
        requires
            i < self.spec_probe_count(),
        ensures
            p == self.spec_probe(rotation, i as int),
    {
        let r = rotation.index();
        match self {
            Shape::Mine => ADJACENT_MINE_CELLS[r][i],
            Shape::SmallConveyor => ADJACENT_SMALL_CONVEYOR_CELLS[r][i],
            Shape::BigConveyor => ADJACENT_BIG_CONVEYOR_CELLS[r][i],
            Shape::Combiner => ADJACENT_COMBINER_CELLS[r][i],
        }
    }
}

/// Every footprint cell lies within two steps of the anchor.
pub proof fn lemma_cell_near(shape: Shape, rotation: Rotation, i: int)
    requires
        0 <= i < shape.spec_cell_count(),
    ensures
        -2 <= shape.spec_cell(rotation, i).0 <= 2,
        -2 <= shape.spec_cell(rotation, i).1 <= 2,
{
}

/// Every adjacency check pairs a cell within three steps of the anchor with
/// a 4-adjacent own cell within two steps.
pub proof fn lemma_probe_near(shape: Shape, rotation: Rotation, i: int)
    requires
        0 <= i < shape.spec_probe_count(),
    ensures
        ({
            let p = shape.spec_probe(rotation, i);
            &&& -3 <= p.0 <= 3
            &&& -3 <= p.1 <= 3
            &&& -2 <= p.2 <= 2
            &&& -2 <= p.3 <= 2
            &&& (p.0 == p.2 && (p.1 - p.3 == 1 || p.3 - p.1 == 1)) || (p.1 == p.3 && (p.0 - p.2
                == 1 || p.2 - p.0 == 1))
        }),
{
}

/// No two entries of a footprint name the same cell.
pub proof fn lemma_cells_distinct(shape: Shape, rotation: Rotation, i: int, j: int)
    requires
        0 <= i < shape.spec_cell_count(),
        0 <= j < shape.spec_cell_count(),
        i != j,
    ensures
        shape.spec_cell(rotation, i).0 != shape.spec_cell(rotation, j).0 || shape.spec_cell(
            rotation,
            i,
        ).1 != shape.spec_cell(rotation, j).1,
{
}

} // verus!
