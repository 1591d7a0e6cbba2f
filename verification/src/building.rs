use crate::geometry::{CellKind, Id, Pos, Rotation};
use crate::resources::{ProductType, ResourceType};
use crate::templates::Shape;
use crate::templates::{lemma_cell_near, lemma_probe_near};
use vstd::prelude::*;

verus! {

/// A source of one resource type, filling a rectangle of output cells.
#[derive(Clone, Copy, Debug, PartialEq, Eq, Structural)]
pub struct Deposit {
    pub pos: Pos,
    pub width: u8,
    pub height: u8,
    pub resource_type: ResourceType,
}

impl Deposit {
    pub fn new(pos: Pos, width: u8, height: u8, resource_type: ResourceType) -> (d: Deposit)
        ensures
            d == (Deposit { pos, width, height, resource_type }),
    {
        Deposit { pos, width, height, resource_type }
    }

    /// The units the deposit holds at the start: five per cell.
    pub open spec fn spec_resources(self) -> int {
        5 * self.width * self.height
    }

    /// The units the deposit holds at the start.
    pub fn resources(&self) -> (n: u16)
        requires
            self.spec_resources() <= u16::MAX,
        ensures
            n == self.spec_resources(),
    {
        assert(self.width * self.height <= 255 * 255) by (nonlinear_arith)
            requires
                self.width <= 255,
                self.height <= 255,
        ;
        let cells: u32 = self.width as u32 * self.height as u32;
        assert(5 * cells == 5 * self.width * self.height) by (nonlinear_arith)
            requires
                cells == self.width * self.height,
        ;
        (5 * cells) as u16
    }
}

/// A rectangle of cells that nothing can use.
#[derive(Clone, Copy, Debug, PartialEq, Eq, Structural)]
pub struct Obstacle {
    pub pos: Pos,
    pub width: u8,
    pub height: u8,
}

impl Obstacle {
    pub fn new(pos: Pos, width: u8, height: u8) -> (o: Obstacle)
        ensures
            o == (Obstacle { pos, width, height }),
    {
        Obstacle { pos, width, height }
    }
}

/// Takes resources out of a deposit.
#[derive(Clone, Copy, Debug, PartialEq, Eq, Structural)]
pub struct Mine {
    pub pos: Pos,
    pub rotation: Rotation,
}

impl Mine {
    pub fn new(pos: Pos, rotation: Rotation) -> (m: Mine)
        ensures
            m == (Mine { pos, rotation }),
    {
        Mine { pos, rotation }
    }
}

/// Moves resources three cells (four if `big`) in a straight line.
#[derive(Clone, Copy, Debug, PartialEq, Eq, Structural)]
pub struct Conveyor {
    pub pos: Pos,
    pub rotation: Rotation,
    pub big: bool,
}

impl Conveyor {
    pub fn new(pos: Pos, rotation: Rotation, big: bool) -> (c: Conveyor)
        ensures
            c == (Conveyor { pos, rotation, big }),
    {
        Conveyor { pos, rotation, big }
    }
}

/// Joins up to three inputs into one output.
#[derive(Clone, Copy, Debug, PartialEq, Eq, Structural)]
pub struct Combiner {
    pub pos: Pos,
    pub rotation: Rotation,
}

impl Combiner {
    pub fn new(pos: Pos, rotation: Rotation) -> (c: Combiner)
        ensures
            c == (Combiner { pos, rotation }),
    {
        Combiner { pos, rotation }
    }
}

/// Turns resources into products: a 5x5 block of input cells.
#[derive(Clone, Copy, Debug, PartialEq, Eq, Structural)]
pub struct Factory {
    pub pos: Pos,
    pub product_type: ProductType,
}

impl Factory {
    pub fn new(pos: Pos, product_type: ProductType) -> (f: Factory)
        ensures
            f == (Factory { pos, product_type }),
    {
        Factory { pos, product_type }
    }
}

/// Anything that occupies cells of the board.
#[derive(Clone, Copy, Debug, PartialEq, Eq, Structural)]
pub enum Building {
    Deposit(Deposit),
    Obstacle(Obstacle),
    Mine(Mine),
    Conveyor(Conveyor),
    Combiner(Combiner),
    Factory(Factory),
}

/// Offset of cell `i` of a rectangle `w` wide, counted row by row.
pub open spec fn rect_offset(w: int, i: int) -> (int, int) {
    (i % w, i / w)
}

/// Adjacency check `i` around a `w` by `h` rectangle: the offset of the
/// outside neighbour, then that of the rectangle's cell beside it. The top
/// edge comes first, then the rows with their left and right ends in turn,
/// then the bottom edge.
pub open spec fn rect_probe(w: int, h: int, i: int) -> (int, int, int, int) {
    if i < w {
        (i, -1, i, 0)
    } else if i < w + 2 * h {
        let j = i - w;
        if j % 2 == 0 {
            (-1, j / 2, 0, j / 2)
        } else {
            (w, j / 2, w - 1, j / 2)
        }
    } else {
        let x = i - w - 2 * h;
        (x, h, x, h - 1)
    }
}

impl Building {
    /// The anchor.
    pub open spec fn spec_pos(self) -> Pos {
        match self {
            Building::Deposit(d) => d.pos,
            Building::Obstacle(o) => o.pos,
            Building::Mine(m) => m.pos,
            Building::Conveyor(c) => c.pos,
            Building::Combiner(c) => c.pos,
            Building::Factory(f) => f.pos,
        }
    }

    pub fn pos(&self) -> (p: Pos)
        ensures
            p == self.spec_pos(),
    {
        match self {
            Building::Deposit(d) => d.pos,
            Building::Obstacle(o) => o.pos,
            Building::Mine(m) => m.pos,
            Building::Conveyor(c) => c.pos,
            Building::Combiner(c) => c.pos,
            Building::Factory(f) => f.pos,
        }
    }

    /// Resources can leave this building: it may own output cells.
    pub open spec fn is_source(self) -> bool {
        self is Deposit || self is Mine || self is Conveyor || self is Combiner
    }

    /// Resources can enter this building: it may own input cells.
    pub open spec fn is_sink(self) -> bool {
        self is Mine || self is Conveyor || self is Combiner || self is Factory
    }

    /// The building's footprint comes from a table.
    pub open spec fn has_shape(self) -> bool {
        self is Mine || self is Conveyor || self is Combiner
    }

    /// The footprint table, for the buildings that have one.
    pub open spec fn spec_shape(self) -> Shape {
        match self {
            Building::Conveyor(c) => if c.big {
                Shape::BigConveyor
            } else {
                Shape::SmallConveyor
            },
            Building::Combiner(_) => Shape::Combiner,
            _ => Shape::Mine,
        }
    }

    /// The rotation, for the buildings that have one.
    pub open spec fn spec_rotation(self) -> Rotation {
        match self {
            Building::Mine(m) => m.rotation,
            Building::Conveyor(c) => c.rotation,
            Building::Combiner(c) => c.rotation,
            _ => Rotation::Up,
        }
    }

    /// Width of the rectangle, for the buildings that are one.
    pub open spec fn spec_width(self) -> int {
        match self {
            Building::Deposit(d) => d.width as int,
            Building::Obstacle(o) => o.width as int,
            _ => 5,
        }
    }

    /// Height of the rectangle, for the buildings that are one.
    pub open spec fn spec_height(self) -> int {
        match self {
            Building::Deposit(d) => d.height as int,
            Building::Obstacle(o) => o.height as int,
            _ => 5,
        }
    }

    /// Number of cells of the footprint.
    pub open spec fn spec_cell_count(self) -> int {
        if self.has_shape() {
            self.spec_shape().spec_cell_count()
        } else {
            self.spec_width() * self.spec_height()
        }
    }

    /// Offset of footprint cell `i` from the anchor.
    pub open spec fn spec_cell_offset(self, i: int) -> (int, int) {
        if self.has_shape() {
            let c = self.spec_shape().spec_cell(self.spec_rotation(), i);
            (c.0 as int, c.1 as int)
        } else {
            rect_offset(self.spec_width(), i)
        }
    }

    /// Position of footprint cell `i`.
    pub open spec fn spec_cell_pos(self, i: int) -> Pos {
        let d = self.spec_cell_offset(i);
        self.spec_pos().shifted(d.0, d.1)
    }

    /// Role of footprint cell `i`.
    pub open spec fn spec_cell_kind(self, i: int) -> CellKind {
        match self {
            Building::Deposit(_) => CellKind::Output,
            Building::Obstacle(_) => CellKind::Inert,
            Building::Factory(_) => CellKind::Input,
            _ => self.spec_shape().spec_cell(self.spec_rotation(), i).2,
        }
    }

    /// `p` is a cell of the footprint.
    pub open spec fn covers(self, p: Pos) -> bool {
        exists|i: int| 0 <= i < self.spec_cell_count() && self.spec_cell_pos(i) == p
    }

    /// `p` is a cell of the footprint, and the building's role there is
    /// `kind`.
    pub open spec fn covers_as(self, p: Pos, kind: CellKind) -> bool {
        exists|i: int|
            0 <= i < self.spec_cell_count() && #[trigger] self.spec_cell_pos(i) == p
                && self.spec_cell_kind(i) == kind
    }

    /// The building stands where positions can be held, `p` is a cell of
    /// its footprint, and its role there is `kind`.
    pub open spec fn spec_owns(self, p: Pos, kind: CellKind) -> bool {
        self.spec_representable() && self.covers_as(p, kind)
    }

    /// An output cell belongs to a source and an input cell to a sink.
    pub proof fn lemma_owner_role(self, p: Pos, kind: CellKind)
        requires
            self.covers_as(p, kind),
        ensures
            kind == CellKind::Output ==> self.is_source(),
            kind == CellKind::Input ==> self.is_sink(),
    {
    }

    /// Number of adjacency checks made when the building is placed.
    pub open spec fn spec_probe_count(self) -> int {
        if self is Obstacle {
            0
        } else if self.has_shape() {
            self.spec_shape().spec_probe_count()
        } else {
            2 * self.spec_width() + 2 * self.spec_height()
        }
    }

    /// Adjacency check `i`: the offset of the neighbour, then that of the own
    /// cell beside it.
    pub open spec fn spec_probe_offsets(self, i: int) -> (int, int, int, int) {
        if self.has_shape() {
            let p = self.spec_shape().spec_probe(self.spec_rotation(), i);
            (p.0 as int, p.1 as int, p.2 as int, p.3 as int)
        } else {
            rect_probe(self.spec_width(), self.spec_height(), i)
        }
    }

    /// The neighbour of adjacency check `i`.
    pub open spec fn spec_probe_pos(self, i: int) -> Pos {
        let d = self.spec_probe_offsets(i);
        self.spec_pos().shifted(d.0, d.1)
    }

    /// The own cell of adjacency check `i`.
    pub open spec fn spec_probe_own(self, i: int) -> Pos {
        let d = self.spec_probe_offsets(i);
        self.spec_pos().shifted(d.2, d.3)
    }

    /// Every footprint cell and every checked neighbour has coordinates that
    /// a position can hold.
    pub open spec fn spec_representable(self) -> bool {
        let p = self.spec_pos();
        if self.has_shape() {
            &&& i8::MIN <= p.x - 3 && p.x + 3 <= i8::MAX
            &&& i8::MIN <= p.y - 3 && p.y + 3 <= i8::MAX
        } else {
            &&& i8::MIN <= p.x - 1 && p.x + self.spec_width() <= i8::MAX
            &&& i8::MIN <= p.y - 1 && p.y + self.spec_height() <= i8::MAX
        }
    }

    /// Under `spec_representable` the footprint cells are where their
    /// offsets say.
    pub proof fn lemma_cell_fits(self, i: int)
        requires
            self.spec_representable(),
            0 <= i < self.spec_cell_count(),
        ensures
            self.spec_cell_pos(i).x == self.spec_pos().x + self.spec_cell_offset(i).0,
            self.spec_cell_pos(i).y == self.spec_pos().y + self.spec_cell_offset(i).1,
            !self.has_shape() ==> {
                &&& 0 <= self.spec_cell_offset(i).0 < self.spec_width()
                &&& 0 <= self.spec_cell_offset(i).1 < self.spec_height()
            },
            self.has_shape() ==> {
                &&& -2 <= self.spec_cell_offset(i).0 <= 2
                &&& -2 <= self.spec_cell_offset(i).1 <= 2
            },
    {
        if self.has_shape() {
            lemma_cell_near(self.spec_shape(), self.spec_rotation(), i);
        } else {
            let w = self.spec_width();
            let h = self.spec_height();
            assert(w > 0) by (nonlinear_arith)
                requires
                    0 <= i < w * h,
                    0 <= w,
            ;
            crate::board::lemma_index_split(w, h, i);
        }
    }

    /// Under `spec_representable` the checked pairs are where their offsets
    /// say, and are 4-adjacent.
    pub proof fn lemma_probe_fits(self, i: int)
        requires
            self.spec_representable(),
            0 <= i < self.spec_probe_count(),
        ensures
            self.spec_probe_pos(i).x == self.spec_pos().x + self.spec_probe_offsets(i).0,
            self.spec_probe_pos(i).y == self.spec_pos().y + self.spec_probe_offsets(i).1,
            self.spec_probe_own(i).x == self.spec_pos().x + self.spec_probe_offsets(i).2,
            self.spec_probe_own(i).y == self.spec_pos().y + self.spec_probe_offsets(i).3,
            crate::geometry::adjacent(self.spec_probe_pos(i), self.spec_probe_own(i)),
    {
        if self.has_shape() {
            lemma_probe_near(self.spec_shape(), self.spec_rotation(), i);
        }
    }

    pub fn cell_count(&self) -> (n: usize)
        ensures
            n == self.spec_cell_count(),
            n <= 255 * 255,
    {
        match self {
            Building::Deposit(d) => {
                assert(d.width * d.height <= 255 * 255) by (nonlinear_arith)
                    requires
                        d.width <= 255,
                        d.height <= 255,
                ;
                d.width as usize * d.height as usize
            },
            Building::Obstacle(o) => {
                assert(o.width * o.height <= 255 * 255) by (nonlinear_arith)
                    requires
                        o.width <= 255,
                        o.height <= 255,
                ;
                o.width as usize * o.height as usize
            },
            Building::Mine(_) => Shape::Mine.cell_count(),
            Building::Conveyor(c) => if c.big {
                Shape::BigConveyor.cell_count()
            } else {
                Shape::SmallConveyor.cell_count()
            },
            Building::Combiner(_) => Shape::Combiner.cell_count(),
            Building::Factory(_) => 25,
        }
    }

    /// Position and role of footprint cell `i`.
    pub fn cell(&self, i: usize) -> (c: (Pos, CellKind))
        requires
            self.spec_representable(),
            i < self.spec_cell_count(),
        ensures
            c.0 == self.spec_cell_pos(i as int),
            c.1 == self.spec_cell_kind(i as int),
    {
        proof {
            self.lemma_cell_fits(i as int);
        }
        let p = self.pos();
        match self {
            Building::Deposit(d) => {
                let w = d.width as usize;
                proof {
                    assert(w > 0 && i <= 255 * 255) by (nonlinear_arith)
                        requires
                            0 <= i < w * d.height,
                            0 <= w <= 255,
                            d.height <= 255,
                    ;
                }
                (rect_cell(p, w, i), CellKind::Output)
            },
            Building::Obstacle(o) => {
                let w = o.width as usize;
                proof {
                    assert(w > 0 && i <= 255 * 255) by (nonlinear_arith)
                        requires
                            0 <= i < w * o.height,
                            0 <= w <= 255,
                            o.height <= 255,
                    ;
                }
                (rect_cell(p, w, i), CellKind::Inert)
            },
            Building::Factory(_) => (rect_cell(p, 5, i), CellKind::Input),
            Building::Mine(m) => table_cell(p, Shape::Mine, m.rotation, i),
            Building::Conveyor(c) => table_cell(
                p,
                if c.big {
                    Shape::BigConveyor
                } else {
                    Shape::SmallConveyor
                },
                c.rotation,
                i,
            ),
            Building::Combiner(c) => table_cell(p, Shape::Combiner, c.rotation, i),
        }
    }

    pub fn probe_count(&self) -> (n: usize)
        ensures
            n == self.spec_probe_count(),
            n <= 1020,
    {
        match self {
            Building::Deposit(d) => 2 * (d.width as usize) + 2 * (d.height as usize),
            Building::Obstacle(_) => 0,
            Building::Mine(_) => Shape::Mine.probe_count(),
            Building::Conveyor(c) => if c.big {
                Shape::BigConveyor.probe_count()
            } else {
                Shape::SmallConveyor.probe_count()
            },
            Building::Combiner(_) => Shape::Combiner.probe_count(),
            Building::Factory(_) => 20,
        }
    }

    /// The pair of adjacency check `i`: the neighbour, then the own cell.
    pub fn probe(&self, i: usize) -> (c: (Pos, Pos))
        requires
            self.spec_representable(),
            i < self.spec_probe_count(),
        ensures
            c.0 == self.spec_probe_pos(i as int),
            c.1 == self.spec_probe_own(i as int),
    {
        proof {
            self.lemma_probe_fits(i as int);
        }
        let p = self.pos();
        match self {
            Building::Deposit(d) => rect_probe_at(p, d.width as usize, d.height as usize, i),
            Building::Obstacle(_) => (p, p),
            Building::Factory(_) => rect_probe_at(p, 5, 5, i),
            Building::Mine(m) => table_probe(p, Shape::Mine, m.rotation, i),
            Building::Conveyor(c) => table_probe(
                p,
                if c.big {
                    Shape::BigConveyor
                } else {
                    Shape::SmallConveyor
                },
                c.rotation,
                i,
            ),
            Building::Combiner(c) => table_probe(p, Shape::Combiner, c.rotation, i),
        }
    }

    /// Whether `p` is a cell of the footprint at which the building's role
    /// is `kind`.
    pub fn owns(&self, p: Pos, kind: CellKind) -> (b: bool)
        ensures
            b == self.spec_owns(p, kind),
    {
        if !self.representable() {
            return false;
        }
        match self {
            Building::Deposit(d) => kind == CellKind::Output && in_rect(*self, d.width, d.height, p),
            Building::Obstacle(o) => kind == CellKind::Inert && in_rect(
                *self,
                o.width,
                o.height,
                p,
            ),
            Building::Factory(_) => kind == CellKind::Input && in_rect(*self, 5, 5, p),
            _ => {
                let n = self.cell_count();
                let mut i: usize = 0;
                while i < n
                    invariant
                        i <= n,
                        n == self.spec_cell_count(),
                        self.spec_representable(),
                        forall|j: int|
                            0 <= j < i ==> !(#[trigger] self.spec_cell_pos(j) == p
                                && self.spec_cell_kind(j) == kind),
                    decreases n - i,
                {
                    let (q, k) = self.cell(i);
                    if q == p && k == kind {
                        return true;
                    }
                    i += 1;
                }
                false
            },
        }
    }

    pub fn representable(&self) -> (b: bool)
        ensures
            b == self.spec_representable(),
    {
        let p = self.pos();
        let x = p.x as i16;
        let y = p.y as i16;
        match self {
            Building::Deposit(d) => -128 <= x - 1 && x + d.width as i16 <= 127 && -128 <= y - 1
                && y + d.height as i16 <= 127,
            Building::Obstacle(o) => -128 <= x - 1 && x + o.width as i16 <= 127 && -128 <= y - 1
                && y + o.height as i16 <= 127,
            Building::Factory(_) => -128 <= x - 1 && x + 5 <= 127 && -128 <= y - 1 && y + 5
                <= 127,
            _ => -128 <= x - 3 && x + 3 <= 127 && -128 <= y - 3 && y + 3 <= 127,
        }
    }
}

/// Whether `p` lies in the rectangle of `w` by `h` cells that the building
/// `b` fills.
fn in_rect(b: Building, w: u8, h: u8, p: Pos) -> (r: bool)
    requires
        !b.has_shape(),
        b.spec_representable(),
        b.spec_width() == w,
        b.spec_height() == h,
    ensures
        r == exists|i: int| 0 <= i < b.spec_cell_count() && #[trigger] b.spec_cell_pos(i) == p,
{
    let a = b.pos();
    let dx = p.x as i16 - a.x as i16;
    let dy = p.y as i16 - a.y as i16;
    let inside = 0 <= dx && dx < w as i16 && 0 <= dy && dy < h as i16;
    proof {
        if inside {
            let i = dy as int * w as int + dx as int;
            crate::board::lemma_index_in_range(w as int, h as int, dx as int, dy as int);
            vstd::arithmetic::div_mod::lemma_fundamental_div_mod_converse(
                i,
                w as int,
                dy as int,
                dx as int,
            );
            b.lemma_cell_fits(i);
            assert(b.spec_cell_pos(i) == p);
        } else {
            assert forall|i: int| 0 <= i < b.spec_cell_count() implies #[trigger] b.spec_cell_pos(i)
                != p by {
                b.lemma_cell_fits(i);
            }
        }
    }
    inside
}

/// The position `(dx, dy)` away from `p`.
fn shift(p: Pos, dx: i16, dy: i16) -> (q: Pos)
    requires
        p.can_shift(dx as int, dy as int),
    ensures
        q == p.shifted(dx as int, dy as int),
{
    Pos { x: (p.x as i16 + dx) as i8, y: (p.y as i16 + dy) as i8 }
}

fn rect_cell(p: Pos, w: usize, i: usize) -> (q: Pos)
    requires
        0 < w <= 255,
        i <= 255 * 255,
        p.can_shift(rect_offset(w as int, i as int).0, rect_offset(w as int, i as int).1),
    ensures
        q == p.shifted(rect_offset(w as int, i as int).0, rect_offset(w as int, i as int).1),
{
    shift(p, (i % w) as i16, (i / w) as i16)
}

fn table_cell(p: Pos, shape: Shape, rotation: Rotation, i: usize) -> (c: (Pos, CellKind))
    requires
        i < shape.spec_cell_count(),
        p.can_shift(shape.spec_cell(rotation, i as int).0 as int, shape.spec_cell(rotation, i as int).1 as int),
    ensures
        c.0 == p.shifted(
            shape.spec_cell(rotation, i as int).0 as int,
            shape.spec_cell(rotation, i as int).1 as int,
        ),
        c.1 == shape.spec_cell(rotation, i as int).2,
{
    let (dx, dy, kind) = shape.cell(rotation, i);
    (shift(p, dx as i16, dy as i16), kind)
}

fn rect_probe_at(p: Pos, w: usize, h: usize, i: usize) -> (c: (Pos, Pos))
    requires
        w <= 255,
        h <= 255,
        i < 2 * w + 2 * h,
        i8::MIN <= p.x - 1 && p.x + w <= i8::MAX,
        i8::MIN <= p.y - 1 && p.y + h <= i8::MAX,
    ensures
        c.0 == p.shifted(rect_probe(w as int, h as int, i as int).0, rect_probe(w as int, h as int, i as int).1),
        c.1 == p.shifted(rect_probe(w as int, h as int, i as int).2, rect_probe(w as int, h as int, i as int).3),
{
    if i < w {
        (shift(p, i as i16, -1), shift(p, i as i16, 0))
    } else if i < w + 2 * h {
        let j = i - w;
        let y = (j / 2) as i16;
        if j % 2 == 0 {
            (shift(p, -1, y), shift(p, 0, y))
        } else {
            (shift(p, w as i16, y), shift(p, w as i16 - 1, y))
        }
    } else {
        let x = (i - w - 2 * h) as i16;
        (shift(p, x, h as i16), shift(p, x, h as i16 - 1))
    }
}

fn table_probe(p: Pos, shape: Shape, rotation: Rotation, i: usize) -> (c: (Pos, Pos))
    requires
        i < shape.spec_probe_count(),
        i8::MIN <= p.x - 3 && p.x + 3 <= i8::MAX,
        i8::MIN <= p.y - 3 && p.y + 3 <= i8::MAX,
    ensures
        c.0 == p.shifted(
            shape.spec_probe(rotation, i as int).0 as int,
            shape.spec_probe(rotation, i as int).1 as int,
        ),
        c.1 == p.shifted(
            shape.spec_probe(rotation, i as int).2 as int,
            shape.spec_probe(rotation, i as int).3 as int,
        ),
{
    proof {
        lemma_probe_near(shape, rotation, i as int);
    }
    let (ax, ay, bx, by) = shape.probe(rotation, i);
    (shift(p, ax as i16, ay as i16), shift(p, bx as i16, by as i16))
}

/// The building store: slot `i` holds the building with identifier `i`, or
/// nothing. A freed slot is used again by the next `push`.
#[derive(Clone, Debug, Default, PartialEq, Eq)]
pub struct Buildings {
    pub values: Vec<Option<Building>>,
}

/// The first empty slot of `s`, or its length if every slot is taken.
pub open spec fn first_free(s: Seq<Option<Building>>) -> int
    decreases s.len(),
{
    if s.len() == 0 {
        0
    } else if s[0] is None {
        0
    } else {
        1 + first_free(s.subrange(1, s.len() as int))
    }
}

/// The taken slots of the first `n`, each with its identifier, in order.
pub open spec fn live_entries(s: Seq<Option<Building>>, n: int) -> Seq<(Id, Building)>
    decreases n,
{
    if n <= 0 {
        Seq::empty()
    } else {
        match s[n - 1] {
            Some(b) => live_entries(s, n - 1).push((Id((n - 1) as u16), b)),
            None => live_entries(s, n - 1),
        }
    }
}

/// The slots before the first free slot are taken, and that slot is
/// empty if it is a slot of the store.
pub proof fn lemma_first_free(s: Seq<Option<Building>>)
    ensures
        0 <= first_free(s) <= s.len(),
        forall|j: int| 0 <= j < first_free(s) ==> s[j] is Some,
        first_free(s) < s.len() ==> s[first_free(s)] is None,
    decreases s.len(),
{
    if s.len() > 0 && s[0] is Some {
        let t = s.subrange(1, s.len() as int);
        lemma_first_free(t);
        assert forall|j: int| 0 <= j < first_free(s) implies s[j] is Some by {
            if j > 0 {
                assert(t[j - 1] == s[j]);
            }
        }
        if first_free(s) < s.len() {
            assert(t[first_free(t)] == s[first_free(s)]);
        }
    }
}

/// The first empty slot is the only index with the two properties that
/// `lemma_first_free` states.
pub proof fn lemma_first_free_is(s: Seq<Option<Building>>, k: int)
    requires
        0 <= k <= s.len(),
        forall|j: int| 0 <= j < k ==> s[j] is Some,
        k < s.len() ==> s[k] is None,
    ensures
        first_free(s) == k,
{
    lemma_first_free(s);
    let f = first_free(s);
    if f < k {
        assert(s[f] is Some);
    } else if k < f {
        assert(s[k] is Some);
    }
}

impl Buildings {
    /// There is room for 65536 identifiers at most.
    pub open spec fn wf(self) -> bool {
        self.values@.len() <= 0x1_0000
    }

    /// A building is stored under `id`.
    pub open spec fn live(self, id: Id) -> bool {
        id.0 < self.values@.len() && self.values@[id.0 as int] is Some
    }

    /// The building stored under `id`.
    pub open spec fn spec_get(self, id: Id) -> Building {
        self.values@[id.0 as int]->0
    }

    /// The same identifiers are taken in both stores, by the same buildings.
    pub open spec fn same_as(self, other: Buildings) -> bool {
        forall|id: Id|
            self.live(id) == other.live(id) && (self.live(id) ==> self.spec_get(id)
                == other.spec_get(id))
    }

    /// `push` can hand out an identifier.
    pub open spec fn has_room(self) -> bool {
        first_free(self.values@) < 0x1_0000
    }

    /// An empty store.
    pub fn new() -> (b: Buildings)
        ensures
            b.values@.len() == 0,
            b.wf(),
    {
        Buildings { values: Vec::new() }
    }

    /// The building stored under `id`.
    pub fn get(&self, id: Id) -> (b: Building)
        requires
            self.live(id),
        ensures
            b == self.spec_get(id),
    {
        self.values[id.0 as usize].unwrap()
    }

    /// Whether a building is stored under `id`.
    pub fn contains(&self, id: Id) -> (b: bool)
        ensures
            b == self.live(id),
    {
        (id.0 as usize) < self.values.len() && self.values[id.0 as usize].is_some()
    }

    /// Takes the building stored under `id` out of the store.
    pub fn remove(&mut self, id: Id) -> (b: Building)
        requires
            old(self).live(id),
        ensures
            b == old(self).spec_get(id),
            final(self).values@ == old(self).values@.update(id.0 as int, None),
    {
        let b = self.values[id.0 as usize].unwrap();
        self.values[id.0 as usize] = None;
        b
    }

    /// Index of the first empty slot, or the length.
    pub fn next_slot(&self) -> (k: usize)
        ensures
            k == first_free(self.values@),
    {
        let mut k: usize = 0;
        while k < self.values.len()
            invariant
                k <= self.values@.len(),
                forall|j: int| 0 <= j < k ==> self.values@[j] is Some,
            decreases self.values@.len() - k,
        {
            if self.values[k].is_none() {
                proof {
                    lemma_first_free_is(self.values@, k as int);
                }
                return k;
            }
            k += 1;
        }
        proof {
            lemma_first_free_is(self.values@, k as int);
        }
        k
    }

    /// Stores `value` in the first empty slot, or in a new one if there is
    /// none, and returns its identifier.
    pub fn push(&mut self, value: Building) -> (id: Id)
        requires
            old(self).has_room(),
        ensures
            id.0 == first_free(old(self).values@),
            final(self).values@ == if id.0 < old(self).values@.len() {
                old(self).values@.update(id.0 as int, Some(value))
            } else {
                old(self).values@.push(Some(value))
            },
            final(self).live(id),
            final(self).spec_get(id) == value,
            !old(self).live(id),
            old(self).wf() ==> final(self).wf(),
    {
        proof {
            lemma_first_free(self.values@);
        }
        let k = self.next_slot();
        if k < self.values.len() {
            self.values[k] = Some(value);
        } else {
            self.values.push(Some(value));
        }
        Id(k as u16)
    }

    /// The stored buildings with their identifiers, in order of identifier.
    pub fn iter(&self) -> (v: Vec<(Id, Building)>)
        requires
            self.wf(),
        ensures
            v@ == live_entries(self.values@, self.values@.len() as int),
    {
        let mut v: Vec<(Id, Building)> = Vec::new();
        let mut i: usize = 0;
        while i < self.values.len()
            invariant
                i <= self.values@.len(),
                self.wf(),
                v@ == live_entries(self.values@, i as int),
            decreases self.values@.len() - i,
        {
            match self.values[i] {
                Some(b) => {
                    v.push((Id(i as u16), b));
                },
                None => {},
            }
            i += 1;
        }
        v
    }
}

} // verus!
