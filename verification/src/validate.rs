use crate::building::Building;
use crate::geometry::{Cell, CellKind, Pos};
use crate::scene::{legal_pair, Connection, Sim};
use vstd::prelude::*;

verus! {

/// Whether resources may flow from `src` to `dst`.
pub fn may_feed(src: &Building, dst: &Building) -> (ok: bool)
    ensures
        ok == legal_pair(*src, *dst),
{
    match src {
        Building::Deposit(_) => match dst {
            Building::Mine(_) => true,
            _ => false,
        },
        Building::Mine(_) => match dst {
            Building::Conveyor(_) | Building::Combiner(_) | Building::Factory(_) => true,
            _ => false,
        },
        Building::Conveyor(_) | Building::Combiner(_) => match dst {
            Building::Mine(_) | Building::Conveyor(_) | Building::Combiner(_) | Building::Factory(
                _,
            ) => true,
            _ => false,
        },
        _ => false,
    }
}

/// Whether two positions are 4-adjacent.
pub fn are_adjacent(a: Pos, b: Pos) -> (ok: bool)
    ensures
        ok == crate::geometry::adjacent(a, b),
{
    let ax = a.x as i16;
    let ay = a.y as i16;
    let bx = b.x as i16;
    let by = b.y as i16;
    (ax == bx && (ay - by == 1 || by - ay == 1)) || (ay == by && (ax - bx == 1 || bx - ax == 1))
}

/// Whether every occupied cell is a cell of its owner's footprint.
fn cells_are_owned(sim: &Sim) -> (ok: bool)
    requires
        sim.board.wf(),
    ensures
        ok == sim.cells_owned(),
{
    let mut y: i8 = 0;
    while y < sim.board.height
        invariant
            0 <= y <= sim.board.height,
            sim.board.wf(),
            forall|p: Pos|
                sim.board.in_bounds(p) && p.y < y && sim.board.at(p) is Some ==> {
                    let c = (#[trigger] sim.board.at(p))->0;
                    &&& sim.buildings.live(c.id)
                    &&& sim.buildings.spec_get(c.id).spec_owns(p, c.kind)
                },
        decreases sim.board.height - y,
    {
        let mut x: i8 = 0;
        while x < sim.board.width
            invariant
                0 <= x <= sim.board.width,
                0 <= y < sim.board.height,
                sim.board.wf(),
                forall|p: Pos|
                    sim.board.in_bounds(p) && (p.y < y || (p.y == y && p.x < x)) && sim.board.at(
                        p,
                    ) is Some ==> {
                        let c = (#[trigger] sim.board.at(p))->0;
                        &&& sim.buildings.live(c.id)
                        &&& sim.buildings.spec_get(c.id).spec_owns(p, c.kind)
                    },
            decreases sim.board.width - x,
        {
            let p = Pos { x, y };
            if let Some(c) = sim.board.cell(p) {
                if !sim.buildings.contains(c.id) {
                    proof {
                        assert(sim.board.at(p) is Some);
                    }
                    return false;
                }
                if !sim.buildings.get(c.id).owns(p, c.kind) {
                    proof {
                        assert(sim.board.at(p) is Some);
                    }
                    return false;
                }
            }
            x += 1;
        }
        y += 1;
    }
    true
}

/// Whether `c` joins an output to the input beside it.
fn link_is_ok(sim: &Sim, c: &Connection) -> (ok: bool)
    requires
        sim.board.wf(),
    ensures
        ok == sim.link_ok(*c),
{
    let out = match sim.board.get(c.output_pos) {
        Some(Some(cell)) => cell,
        _ => {
            return false;
        },
    };
    let inp = match sim.board.get(c.input_pos) {
        Some(Some(cell)) => cell,
        _ => {
            return false;
        },
    };
    if out.kind != CellKind::Output || out.id != c.output_id {
        return false;
    }
    if inp.kind != CellKind::Input || inp.id != c.input_id {
        return false;
    }
    if !are_adjacent(c.output_pos, c.input_pos) {
        return false;
    }
    if !sim.buildings.contains(c.output_id) || !sim.buildings.contains(c.input_id) {
        return false;
    }
    may_feed(&sim.buildings.get(c.output_id), &sim.buildings.get(c.input_id))
}

/// Whether every connection joins an output to the input beside it.
fn links_are_ok(sim: &Sim) -> (ok: bool)
    requires
        sim.board.wf(),
    ensures
        ok == sim.links_ok(),
{
    let mut i: usize = 0;
    while i < sim.connections.len()
        invariant
            i <= sim.connections@.len(),
            sim.board.wf(),
            forall|j: int| 0 <= j < i ==> sim.link_ok(#[trigger] sim.connections@[j]),
        decreases sim.connections@.len() - i,
    {
        if !link_is_ok(sim, &sim.connections[i]) {
            proof {
                assert(!sim.link_ok(sim.connections@[i as int]));
            }
            return false;
        }
        i += 1;
    }
    true
}

/// Whether no output cell feeds two connections.
fn outputs_are_distinct(sim: &Sim) -> (ok: bool)
    ensures
        ok == sim.outputs_distinct(),
{
    let mut j: usize = 0;
    while j < sim.connections.len()
        invariant
            j <= sim.connections@.len(),
            forall|a: int, b: int|
                0 <= a < b < j ==> (#[trigger] sim.connections@[a]).output_pos != (
                #[trigger] sim.connections@[b]).output_pos,
        decreases sim.connections@.len() - j,
    {
        let mut i: usize = 0;
        while i < j
            invariant
                i <= j < sim.connections@.len(),
                forall|a: int|
                    0 <= a < i ==> (#[trigger] sim.connections@[a]).output_pos
                        != sim.connections@[j as int].output_pos,
            decreases j - i,
        {
            if sim.connections[i].output_pos == sim.connections[j].output_pos {
                proof {
                    assert(sim.connections@[i as int].output_pos == sim.connections@[j as int].output_pos);
                }
                return false;
            }
            i += 1;
        }
        j += 1;
    }
    true
}

impl Sim {
    /// Whether the scene is consistent: the board and the store are well
    /// formed, every occupied cell is a cell of its owner's footprint, every
    /// connection joins an output to the input beside it, and no output
    /// feeds two connections.
    pub fn is_consistent(&self) -> (ok: bool)
        ensures
            ok == self.wf(),
    {
        if self.board.width < 0 || self.board.width > 100 || self.board.height < 0
            || self.board.height > 100 {
            return false;
        }
        proof {
            assert(self.board.width as int * self.board.height as int <= 10000)
                by (nonlinear_arith)
                requires
                    0 <= self.board.width <= 100,
                    0 <= self.board.height <= 100,
            ;
        }
        if self.board.cells.len() != self.board.width as usize * self.board.height as usize {
            return false;
        }
        if self.buildings.values.len() > 0x1_0000 {
            return false;
        }
        cells_are_owned(self) && links_are_ok(self) && outputs_are_distinct(self)
    }
}

} // verus!
