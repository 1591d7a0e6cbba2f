use vstd::prelude::*;

verus! {

/// Largest board side: coordinates of board cells lie in `0..MAX_BOARD_SIZE`.
pub const MAX_BOARD_SIZE: i8 = 100;

/// Side length of the square block a factory occupies.
pub const FACTORY_SIZE: i8 = 5;

/// A position on the grid, or an offset between two positions.
#[derive(Clone, Copy, Debug, Default, PartialEq, Eq, Structural)]
pub struct Pos {
    pub x: i8,
    pub y: i8,
}

impl Pos {
    pub fn new(x: i8, y: i8) -> (p: Pos)
        ensures
            p == (Pos { x, y }),
    {
        Pos { x, y }
    }

    /// Whether `self + (dx, dy)` is representable.
    pub open spec fn can_shift(self, dx: int, dy: int) -> bool {
        &&& i8::MIN <= self.x + dx <= i8::MAX
        &&& i8::MIN <= self.y + dy <= i8::MAX
    }

    /// The position `self + (dx, dy)`.
    pub open spec fn shifted(self, dx: int, dy: int) -> Pos {
        Pos { x: (self.x + dx) as i8, y: (self.y + dy) as i8 }
    }

    /// Componentwise sum.
    pub fn add(self, rhs: Pos) -> (p: Pos)
        requires
            self.can_shift(rhs.x as int, rhs.y as int),
        ensures
            p == self.shifted(rhs.x as int, rhs.y as int),
    {
        Pos { x: self.x + rhs.x, y: self.y + rhs.y }
    }

    /// Componentwise difference.
    pub fn sub(self, rhs: Pos) -> (p: Pos)
        requires
            self.can_shift(-(rhs.x as int), -(rhs.y as int)),
        ensures
            p == self.shifted(-(rhs.x as int), -(rhs.y as int)),
    {
        Pos { x: self.x - rhs.x, y: self.y - rhs.y }
    }

    /// The Manhattan length `|x| + |y|` as a mathematical integer.
    pub open spec fn spec_manhattan_len(self) -> int {
        (if self.x < 0 { -(self.x as int) } else { self.x as int })
            + (if self.y < 0 { -(self.y as int) } else { self.y as int })
    }

    pub fn manhattan_len(&self) -> (len: u8)
        requires
            self.spec_manhattan_len() <= u8::MAX,
        ensures
            len == self.spec_manhattan_len(),
    {
        let ax: u8 = if self.x < 0 { (-(self.x as i16)) as u8 } else { self.x as u8 };
        let ay: u8 = if self.y < 0 { (-(self.y as i16)) as u8 } else { self.y as u8 };
        ax + ay
    }

    /// Quarter turn: `(x, y)` becomes `(y, -x)`.
    pub fn rot_90(&self) -> (p: Pos)
        requires
            self.x > i8::MIN,
        ensures
            p.x == self.y,
            p.y == -self.x,
    {
        Pos { x: self.y, y: -self.x }
    }
}

pub fn pos(x: i8, y: i8) -> (p: Pos)
    ensures
        p == (Pos { x, y }),
{
    Pos { x, y }
}

/// Two positions are 4-adjacent: they differ by one step along one axis.
pub open spec fn adjacent(a: Pos, b: Pos) -> bool {
    ||| a.x == b.x && (a.y - b.y == 1 || b.y - a.y == 1)
    ||| a.y == b.y && (a.x - b.x == 1 || b.x - a.x == 1)
}

/// The four orientations of a mine, conveyor or combiner.
///
/// `Up` selects the first footprint of a building's table (resources flow
/// towards +x), `Right` the second (towards +y), `Down` the third
/// (towards -x) and `Left` the fourth (towards -y).
#[derive(Clone, Copy, Debug, PartialEq, Eq, Structural)]
pub enum Rotation {
    Up,
    Right,
    Down,
    Left,
}

impl Rotation {
    /// Row of the footprint tables that this rotation selects.
    pub open spec fn spec_index(self) -> int {
        match self {
            Rotation::Up => 0,
            Rotation::Right => 1,
            Rotation::Down => 2,
            Rotation::Left => 3,
        }
    }

    pub fn index(self) -> (i: usize)
        ensures
            i == self.spec_index(),
            i < 4,
    {
        match self {
            Rotation::Up => 0,
            Rotation::Right => 1,
            Rotation::Down => 2,
            Rotation::Left => 3,
        }
    }

    /// The rotation that selects row `i` of the footprint tables.
    pub fn from_index(i: usize) -> (r: Rotation)
        requires
            i < 4,
        ensures
            r.spec_index() == i,
    {
        if i == 0 {
            Rotation::Up
        } else if i == 1 {
            Rotation::Right
        } else if i == 2 {
            Rotation::Down
        } else {
            Rotation::Left
        }
    }

    /// The number under which this rotation is exchanged: `Right` is 0,
    /// `Down` 1, `Left` 2 and `Up` 3.
    pub open spec fn spec_code(self) -> u8 {
        match self {
            Rotation::Right => 0,
            Rotation::Down => 1,
            Rotation::Left => 2,
            Rotation::Up => 3,
        }
    }

    pub fn code(self) -> (c: u8)
        ensures
            c == self.spec_code(),
            c < 4,
    {
        match self {
            Rotation::Right => 0,
            Rotation::Down => 1,
            Rotation::Left => 2,
            Rotation::Up => 3,
        }
    }

    /// The rotation exchanged as `code`, if `code < 4`.
    pub open spec fn spec_from_code(code: u8) -> Option<Rotation> {
        if code == 0 {
            Some(Rotation::Right)
        } else if code == 1 {
            Some(Rotation::Down)
        } else if code == 2 {
            Some(Rotation::Left)
        } else if code == 3 {
            Some(Rotation::Up)
        } else {
            None
        }
    }

    pub fn from_code(code: u8) -> (r: Option<Rotation>)
        ensures
            r == Self::spec_from_code(code),
            r is Some <==> code < 4,
            r is Some ==> r->0.spec_code() == code,
    {
        if code == 0 {
            Some(Rotation::Right)
        } else if code == 1 {
            Some(Rotation::Down)
        } else if code == 2 {
            Some(Rotation::Left)
        } else if code == 3 {
            Some(Rotation::Up)
        } else {
            None
        }
    }

    /// A conveyor with this rotation runs along the y axis.
    pub open spec fn spec_is_vertical(self) -> bool {
        self == Rotation::Right || self == Rotation::Left
    }

    pub fn is_vertical(&self) -> (b: bool)
        ensures
            b == self.spec_is_vertical(),
    {
        match self {
            Rotation::Right | Rotation::Left => true,
            Rotation::Up | Rotation::Down => false,
        }
    }

    /// A conveyor with this rotation runs along the x axis.
    pub fn is_horizontal(&self) -> (b: bool)
        ensures
            b == !self.spec_is_vertical(),
    {
        match self {
            Rotation::Up | Rotation::Down => true,
            Rotation::Right | Rotation::Left => false,
        }
    }
}

/// Identifier of a building: its slot in the building store.
#[derive(Clone, Copy, Debug, PartialEq, Eq, Hash, Structural)]
pub struct Id(pub u16);

/// What a building does at one of its cells.
#[derive(Clone, Copy, Debug, PartialEq, Eq, Structural)]
pub enum CellKind {
    Input,
    Output,
    Inert,
}

/// An occupied board cell: the building that owns it and its role there.
#[derive(Clone, Copy, Debug, PartialEq, Eq, Structural)]
pub struct Cell {
    pub kind: CellKind,
    pub id: Id,
}

impl Cell {
    pub fn new(cell_type: CellKind, id: Id) -> (c: Cell)
        ensures
            c == (Cell { kind: cell_type, id }),
    {
        Cell { kind: cell_type, id }
    }

    pub fn input(id: Id) -> (c: Cell)
        ensures
            c == (Cell { kind: CellKind::Input, id }),
    {
        Cell { kind: CellKind::Input, id }
    }

    pub fn output(id: Id) -> (c: Cell)
        ensures
            c == (Cell { kind: CellKind::Output, id }),
    {
        Cell { kind: CellKind::Output, id }
    }

    pub fn inert(id: Id) -> (c: Cell)
        ensures
            c == (Cell { kind: CellKind::Inert, id }),
    {
        Cell { kind: CellKind::Inert, id }
    }

    /// The first mine footprint drawn on a 4x4 grid whose rows are `y` and
    /// columns `x`, the mine's anchor at row 1, column 1.
    pub fn mine(id: Id) -> (grid: [[Option<Cell>; 4]; 4])
        ensures
            forall|x: int, y: int|
                0 <= x < 4 && 0 <= y < 4 ==> (#[trigger] grid[y][x]) == Self::spec_mine(id, x, y),
    {
        let i = Some(Cell { kind: CellKind::Input, id });
        let o = Some(Cell { kind: CellKind::Output, id });
        let n = Some(Cell { kind: CellKind::Inert, id });
        [[None, None, None, None], [None, n, n, None], [i, n, n, o], [None, None, None, None]]
    }

    /// Cell `(x, y)` of the grid that `mine` draws.
    pub open spec fn spec_mine(id: Id, x: int, y: int) -> Option<Cell> {
        if (y == 1 || y == 2) && (x == 1 || x == 2) {
            Some(Cell { kind: CellKind::Inert, id })
        } else if y == 2 && x == 0 {
            Some(Cell { kind: CellKind::Input, id })
        } else if y == 2 && x == 3 {
            Some(Cell { kind: CellKind::Output, id })
        } else {
            None
        }
    }
}

/// Reads a square grid as seen under `rotation`: unturned for `Up`, and for
/// the others with the axes exchanged or mirrored.
pub fn index_rotated<const SIZE: usize>(
    board: &[[Option<Cell>; SIZE]; SIZE],
    x: usize,
    y: usize,
    rotation: Rotation,
) -> (c: Option<Cell>)
    requires
        x < SIZE,
        y < SIZE,
    ensures
        c == match rotation {
            Rotation::Up => board[y as int][x as int],
            Rotation::Right => board[SIZE - 1 - x][y as int],
            Rotation::Down => board[SIZE - 1 - y][SIZE - 1 - x],
            Rotation::Left => board[x as int][SIZE - 1 - y],
        },
{
    match rotation {
        Rotation::Up => board[y][x],
        Rotation::Right => board[SIZE - 1 - x][y],
        Rotation::Down => board[SIZE - 1 - y][SIZE - 1 - x],
        Rotation::Left => board[x][SIZE - 1 - y],
    }
}

} // verus!
