use crate::board::Board;
use crate::building::{Building, Buildings};
use crate::geometry::{adjacent, Cell, CellKind, Id, Pos};
use crate::resources::{Products, Resources};
use vstd::prelude::*;

verus! {

/// A pipe from an output cell to the input cell beside it.
#[derive(Clone, Copy, Debug, PartialEq, Eq)]
pub struct Connection {
    /// The building the resources leave.
    pub output_id: Id,
    pub output_pos: Pos,
    /// The building the resources enter.
    pub input_id: Id,
    pub input_pos: Pos,
    /// What is on its way through the pipe.
    pub resources: Resources,
}

impl Connection {
    /// The pipe from `output_pos` to `input_pos`, with nothing in it.
    pub open spec fn spec_new(output_id: Id, output_pos: Pos, input_id: Id, input_pos: Pos) -> Connection {
        Connection {
            output_id,
            output_pos,
            input_id,
            input_pos,
            resources: Resources { values: [0u16, 0u16, 0u16, 0u16, 0u16, 0u16, 0u16, 0u16] },
        }
    }

    pub fn new(output_id: Id, output_pos: Pos, input_id: Id, input_pos: Pos) -> (c: Connection)
        ensures
            c == Self::spec_new(output_id, output_pos, input_id, input_pos),
            c.resources.spec_is_empty(),
    {
        Connection {
            output_id,
            output_pos,
            input_id,
            input_pos,
            resources: Resources { values: [0u16, 0u16, 0u16, 0u16, 0u16, 0u16, 0u16, 0u16] },
        }
    }

    /// The pipe starts or ends at building `id`.
    pub open spec fn touches(self, id: Id) -> bool {
        self.output_id == id || self.input_id == id
    }
}

/// Resources may flow from `src` to `dst`: a deposit feeds mines only, a
/// mine feeds anything but a mine, a conveyor or combiner feeds any sink.
pub open spec fn legal_pair(src: Building, dst: Building) -> bool {
    match src {
        Building::Deposit(_) => dst is Mine,
        Building::Mine(_) => dst is Conveyor || dst is Combiner || dst is Factory,
        Building::Conveyor(_) | Building::Combiner(_) => dst.is_sink(),
        _ => false,
    }
}

/// The scene: the product table, the buildings, the board they stand on, the
/// connections between them, and the budgets of the task.
#[derive(Clone, Debug, PartialEq, Eq)]
pub struct Sim {
    pub products: Products,
    pub buildings: Buildings,
    pub board: Board,
    pub connections: Vec<Connection>,
    pub turns: u32,
    pub time: u32,
}

impl Sim {
    /// Every occupied cell belongs to a stored building whose footprint
    /// holds the cell, in the role that the cell has.
    pub open spec fn cells_owned(self) -> bool {
        forall|p: Pos|
            self.board.in_bounds(p) && self.board.at(p) is Some ==> {
                let c = (#[trigger] self.board.at(p))->0;
                &&& self.buildings.live(c.id)
                &&& self.buildings.spec_get(c.id).spec_owns(p, c.kind)
            }
    }

    /// `c` leaves an output cell of its source and enters the input cell of
    /// its destination beside it, and the two buildings may be connected.
    pub open spec fn link_ok(self, c: Connection) -> bool {
        &&& self.board.in_bounds(c.output_pos)
        &&& self.board.in_bounds(c.input_pos)
        &&& self.board.at(c.output_pos) == Some(Cell { kind: CellKind::Output, id: c.output_id })
        &&& self.board.at(c.input_pos) == Some(Cell { kind: CellKind::Input, id: c.input_id })
        &&& adjacent(c.output_pos, c.input_pos)
        &&& self.buildings.live(c.output_id)
        &&& self.buildings.live(c.input_id)
        &&& legal_pair(self.buildings.spec_get(c.output_id), self.buildings.spec_get(c.input_id))
    }

    /// Every connection is as `link_ok` says.
    pub open spec fn links_ok(self) -> bool {
        forall|i: int| 0 <= i < self.connections@.len() ==> self.link_ok(#[trigger] self.connections@[i])
    }

    /// No output cell feeds two connections.
    pub open spec fn outputs_distinct(self) -> bool {
        forall|i: int, j: int|
            0 <= i < j < self.connections@.len() ==> (#[trigger] self.connections@[i]).output_pos
                != (#[trigger] self.connections@[j]).output_pos
    }

    /// The scene is consistent: board and store are well formed, every
    /// occupied cell is a cell of its owner's footprint, every connection
    /// joins an output to the input beside it, and no output feeds two
    /// connections.
    pub open spec fn wf(self) -> bool {
        &&& self.board.wf()
        &&& self.buildings.wf()
        &&& self.cells_owned()
        &&& self.links_ok()
        &&& self.outputs_distinct()
    }

    /// Both scenes hold the same products, buildings, cells, connections and
    /// budgets.
    pub open spec fn same_as(self, other: Sim) -> bool {
        &&& self.products == other.products
        &&& self.buildings.values@ == other.buildings.values@
        &&& self.board.same_as(other.board)
        &&& self.connections@ == other.connections@
        &&& self.turns == other.turns
        &&& self.time == other.time
    }

    /// The identifier that the next building placed will get.
    pub fn next_id(&self) -> (id: Id)
        requires
            self.buildings.has_room(),
        ensures
            id.0 == crate::building::first_free(self.buildings.values@),
    {
        Id(self.buildings.next_slot() as u16)
    }

    /// The building stored under `id`.
    pub fn building(&self, id: Id) -> (b: Building)
        requires
            self.buildings.live(id),
        ensures
            b == self.buildings.spec_get(id),
    {
        self.buildings.get(id)
    }

    /// A copy of the scene.
    pub fn duplicate(&self) -> (s: Sim)
        ensures
            s.same_as(*self),
            self.wf() ==> s.wf(),
    {
        let mut values: Vec<Option<Building>> = Vec::new();
        let mut i: usize = 0;
        while i < self.buildings.values.len()
            invariant
                i <= self.buildings.values@.len(),
                values@ == self.buildings.values@.take(i as int),
            decreases self.buildings.values@.len() - i,
        {
            values.push(self.buildings.values[i]);
            proof {
                assert(values@ =~= self.buildings.values@.take(i as int + 1));
            }
            i += 1;
        }
        let mut cells: Vec<Option<Cell>> = Vec::new();
        let mut i: usize = 0;
        while i < self.board.cells.len()
            invariant
                i <= self.board.cells@.len(),
                cells@ == self.board.cells@.take(i as int),
            decreases self.board.cells@.len() - i,
        {
            cells.push(self.board.cells[i]);
            proof {
                assert(cells@ =~= self.board.cells@.take(i as int + 1));
            }
            i += 1;
        }
        let mut connections: Vec<Connection> = Vec::new();
        let mut i: usize = 0;
        while i < self.connections.len()
            invariant
                i <= self.connections@.len(),
                connections@ == self.connections@.take(i as int),
            decreases self.connections@.len() - i,
        {
            connections.push(self.connections[i]);
            proof {
                assert(connections@ =~= self.connections@.take(i as int + 1));
            }
            i += 1;
        }
        proof {
            assert(values@ =~= self.buildings.values@);
            assert(cells@ =~= self.board.cells@);
            assert(connections@ =~= self.connections@);
        }
        let s = Sim {
            products: self.products,
            buildings: Buildings { values },
            board: Board { width: self.board.width, height: self.board.height, cells },
            connections,
            turns: self.turns,
            time: self.time,
        };
        proof {
            if self.wf() {
                Self::lemma_same_wf(*self, s);
            }
        }
        s
    }

    /// A scene that holds the same as a consistent scene is consistent.
    pub proof fn lemma_same_wf(a: Sim, b: Sim)
        requires
            a.wf(),
            b.same_as(a),
        ensures
            b.wf(),
    {
        assert forall|p: Pos| b.board.in_bounds(p) && b.board.at(p) is Some implies {
            let c = (#[trigger] b.board.at(p))->0;
            &&& b.buildings.live(c.id)
            &&& b.buildings.spec_get(c.id).spec_owns(p, c.kind)
        } by {
            assert(a.board.at(p) == b.board.at(p));
        }
        assert forall|i: int| 0 <= i < b.connections@.len() implies b.link_ok(
            #[trigger] b.connections@[i],
        ) by {
            assert(a.link_ok(a.connections@[i]));
        }
    }

    /// A scene on `board` with no buildings and no connections.
    pub fn new(products: Products, board: Board, turns: u32, time: u32) -> (s: Sim)
        ensures
            s.products == products,
            s.board == board,
            s.turns == turns,
            s.time == time,
            s.buildings.values@.len() == 0,
            s.connections@.len() == 0,
            board.wf() && board.is_blank() ==> s.wf(),
    {
        Sim { products, buildings: Buildings::new(), board, connections: Vec::new(), turns, time }
    }
}

} // verus!
