use crate::board::Board;
use crate::building::{Building, Buildings};
use crate::error::Error;
use crate::geometry::{adjacent, Cell, CellKind, Id, Pos};
use crate::scene::{legal_pair, Connection, Sim};
use vstd::prelude::*;

verus! {

/// The one overlap that is allowed: an inert cell of a conveyor put on an
/// inert cell of another conveyor.
pub open spec fn may_cross(
    new_owner: Building,
    new_kind: CellKind,
    old_owner: Building,
    old_kind: CellKind,
) -> bool {
    &&& new_owner is Conveyor
    &&& old_owner is Conveyor
    &&& new_kind == CellKind::Inert
    &&& old_kind == CellKind::Inert
}

/// Why a cell of role `kind` of the building `owner` cannot be put at `pos`,
/// or `None` if it can: `pos` is on the board, and is empty or a crossing.
pub open spec fn cell_verdict(sim: Sim, owner: Building, pos: Pos, kind: CellKind) -> Option<
    Error,
> {
    if !sim.board.in_bounds(pos) {
        Some(Error::OutOfBounds(pos))
    } else {
        match sim.board.at(pos) {
            None => None,
            Some(other) => if may_cross(
                owner,
                kind,
                sim.buildings.spec_get(other.id),
                other.kind,
            ) {
                None
            } else {
                Some(Error::Intersection(pos))
            },
        }
    }
}

/// Some connection of `conns` leaves the output cell at `pos`.
pub open spec fn feeds(conns: Seq<Connection>, pos: Pos) -> bool {
    exists|i: int| 0 <= i < conns.len() && (#[trigger] conns[i]).output_pos == pos
}

/// What comes of joining the output cell `output` at `output_pos` to the
/// input cell `input` at `input_pos`: the new connection, or the rule that
/// forbids it.
pub open spec fn link_verdict(
    buildings: Buildings,
    conns: Seq<Connection>,
    output_pos: Pos,
    output: Cell,
    input_pos: Pos,
    input: Cell,
) -> Result<Connection, Error> {
    let src = buildings.spec_get(output.id);
    let dst = buildings.spec_get(input.id);
    if src is Deposit && !(dst is Mine) {
        Err(Error::DepositEgress(input_pos))
    } else if src is Mine && dst is Mine {
        Err(Error::MineEgress(output_pos))
    } else if feeds(conns, output_pos) {
        Err(Error::MultipleIngresses(output_pos))
    } else {
        Ok(Connection::spec_new(output.id, output_pos, input.id, input_pos))
    }
}

/// What comes of looking at the two cells `a` and `b`: if both are on the
/// board and occupied, one an output and the other an input, the verdict on
/// joining them; otherwise nothing.
pub open spec fn probe_verdict(
    board: Board,
    buildings: Buildings,
    conns: Seq<Connection>,
    a: Pos,
    b: Pos,
) -> Result<Option<Connection>, Error> {
    if board.in_bounds(a) && board.in_bounds(b) && board.at(a) is Some && board.at(b) is Some {
        let ca = board.at(a)->0;
        let cb = board.at(b)->0;
        if ca.kind == CellKind::Output && cb.kind == CellKind::Input {
            match link_verdict(buildings, conns, a, ca, b, cb) {
                Ok(c) => Ok(Some(c)),
                Err(e) => Err(e),
            }
        } else if ca.kind == CellKind::Input && cb.kind == CellKind::Output {
            match link_verdict(buildings, conns, b, cb, a, ca) {
                Ok(c) => Ok(Some(c)),
                Err(e) => Err(e),
            }
        } else {
            Ok(None)
        }
    } else {
        Ok(None)
    }
}

/// Puts `cell` on the board at `pos`.
///
/// Fails with `OutOfBounds` off the board and with `Intersection` on an
/// occupied cell, unless an inert conveyor cell meets an inert cell of
/// another conveyor, which it then replaces. A failure changes nothing.
pub fn place_cell(sim: &mut Sim, pos: Pos, cell: Cell) -> (res: Result<(), Error>)
    requires
        old(sim).wf(),
        old(sim).buildings.live(cell.id),
        old(sim).buildings.spec_get(cell.id).spec_owns(pos, cell.kind),
    ensures
        final(sim).wf(),
        final(sim).products == old(sim).products,
        final(sim).buildings == old(sim).buildings,
        final(sim).connections == old(sim).connections,
        final(sim).turns == old(sim).turns,
        final(sim).time == old(sim).time,
        final(sim).board.width == old(sim).board.width,
        final(sim).board.height == old(sim).board.height,
        match cell_verdict(*old(sim), old(sim).buildings.spec_get(cell.id), pos, cell.kind) {
            Some(e) => res == Err::<(), Error>(e) && final(sim).board == old(sim).board,
            None => {
                &&& res is Ok
                &&& final(sim).board.at(pos) == Some(cell)
                &&& forall|q: Pos|
                    old(sim).board.in_bounds(q) && q != pos ==> final(sim).board.at(q) == old(sim).board.at(q)
            },
        },
{
    let other = match sim.board.get(pos) {
        None => {
            return Err(Error::OutOfBounds(pos));
        },
        Some(other) => other,
    };
    if let Some(other) = other {
        let crossing = match (sim.buildings.get(other.id), sim.buildings.get(cell.id)) {
            (Building::Conveyor(_), Building::Conveyor(_)) => cell.kind == CellKind::Inert
                && other.kind == CellKind::Inert,
            _ => false,
        };
        if !crossing {
            return Err(Error::Intersection(pos));
        }
    }
    sim.board.set(pos, Some(cell));
    proof {
        assert forall|i: int| 0 <= i < sim.connections@.len() implies sim.link_ok(
            #[trigger] sim.connections@[i],
        ) by {
            let c = sim.connections@[i];
            assert(old(sim).link_ok(c));
        }
    }
    Ok(())
}

/// Joins the output cell at `output_pos` to the input cell at `input_pos`.
///
/// Fails with `DepositEgress` where a deposit would feed anything but a
/// mine, with `MineEgress` where a mine would feed a mine, and with
/// `MultipleIngresses` where the output cell already feeds a connection.
/// Otherwise the new connection is appended. A failure changes nothing.
pub fn check_connection(
    sim: &mut Sim,
    output_pos: Pos,
    output: Cell,
    input_pos: Pos,
    input: Cell,
) -> (res: Result<(), Error>)
    requires
        old(sim).wf(),
        old(sim).board.in_bounds(output_pos),
        old(sim).board.in_bounds(input_pos),
        old(sim).board.at(output_pos) == Some(output),
        old(sim).board.at(input_pos) == Some(input),
        output.kind == CellKind::Output,
        input.kind == CellKind::Input,
        adjacent(output_pos, input_pos),
    ensures
        final(sim).wf(),
        final(sim).products == old(sim).products,
        final(sim).buildings == old(sim).buildings,
        final(sim).board == old(sim).board,
        final(sim).turns == old(sim).turns,
        final(sim).time == old(sim).time,
        match link_verdict(
            old(sim).buildings,
            old(sim).connections@,
            output_pos,
            output,
            input_pos,
            input,
        ) {
            Ok(c) => res is Ok && final(sim).connections@ == old(sim).connections@.push(c),
            Err(e) => res == Err::<(), Error>(e) && final(sim).connections == old(sim).connections,
        },
{
    let src = sim.buildings.get(output.id);
    let dst = sim.buildings.get(input.id);
    match (src, dst) {
        (Building::Deposit(_), Building::Mine(_)) => {},
        (Building::Deposit(_), _) => {
            return Err(Error::DepositEgress(input_pos));
        },
        (Building::Mine(_), Building::Mine(_)) => {
            return Err(Error::MineEgress(output_pos));
        },
        _ => {},
    }
    let mut i: usize = 0;
    while i < sim.connections.len()
        invariant
            i <= sim.connections@.len(),
            *sim == *old(sim),
            old(sim).wf(),
            src == sim.buildings.spec_get(output.id),
            dst == sim.buildings.spec_get(input.id),
            !(src is Deposit && !(dst is Mine)),
            !(src is Mine && dst is Mine),
            forall|j: int| 0 <= j < i ==> (#[trigger] sim.connections@[j]).output_pos != output_pos,
        decreases sim.connections@.len() - i,
    {
        if sim.connections[i].output_pos == output_pos {
            return Err(Error::MultipleIngresses(output_pos));
        }
        i += 1;
    }
    let con = Connection::new(output.id, output_pos, input.id, input_pos);
    sim.connections.push(con);
    proof {
        assert(sim.link_ok(con));
        assert forall|k: int| 0 <= k < sim.connections@.len() implies sim.link_ok(
            #[trigger] sim.connections@[k],
        ) by {
            if k < old(sim).connections@.len() {
                assert(old(sim).link_ok(old(sim).connections@[k]));
            }
        }
    }
    Ok(())
}

/// Looks at two neighbouring cells and, where one is an output and the
/// other an input, joins them; see `check_connection`. Where either is off
/// the board or empty, or the two are no such pair, nothing happens.
pub fn check_adjacent_cells(sim: &mut Sim, pos_a: Pos, pos_b: Pos) -> (res: Result<(), Error>)
    requires
        old(sim).wf(),
        adjacent(pos_a, pos_b),
    ensures
        final(sim).wf(),
        final(sim).products == old(sim).products,
        final(sim).buildings == old(sim).buildings,
        final(sim).board == old(sim).board,
        final(sim).turns == old(sim).turns,
        final(sim).time == old(sim).time,
        match probe_verdict(
            old(sim).board,
            old(sim).buildings,
            old(sim).connections@,
            pos_a,
            pos_b,
        ) {
            Ok(Some(c)) => res is Ok && final(sim).connections@ == old(sim).connections@.push(c),
            Ok(None) => res is Ok && final(sim).connections == old(sim).connections,
            Err(e) => res == Err::<(), Error>(e) && final(sim).connections == old(sim).connections,
        },
{
    let (a, b) = match (sim.board.get(pos_a), sim.board.get(pos_b)) {
        (Some(Some(a)), Some(Some(b))) => (a, b),
        _ => {
            return Ok(());
        },
    };
    match (a.kind, b.kind) {
        (CellKind::Output, CellKind::Input) => check_connection(sim, pos_a, a, pos_b, b),
        (CellKind::Input, CellKind::Output) => check_connection(sim, pos_b, b, pos_a, a),
        _ => Ok(()),
    }
}

/// The error at the first of the first `n` footprint cells of `building`
/// that cannot be put on the board of `sim`, or `None` if all of them can.
pub open spec fn blocked(sim: Sim, building: Building, n: int) -> Option<Error>
    decreases n,
{
    if n <= 0 {
        None
    } else {
        match blocked(sim, building, n - 1) {
            Some(e) => Some(e),
            None => cell_verdict(
                sim,
                building,
                building.spec_cell_pos(n - 1),
                building.spec_cell_kind(n - 1),
            ),
        }
    }
}

/// The connections of `mid` after the first `n` adjacency checks of
/// `building`, made in order, or the error of the first check that fails.
pub open spec fn links(mid: Sim, building: Building, n: int) -> Result<Seq<Connection>, Error>
    decreases n,
{
    if n <= 0 {
        Ok(mid.connections@)
    } else {
        match links(mid, building, n - 1) {
            Err(e) => Err(e),
            Ok(cs) => match probe_verdict(
                mid.board,
                mid.buildings,
                cs,
                building.spec_probe_pos(n - 1),
                building.spec_probe_own(n - 1),
            ) {
                Err(e) => Err(e),
                Ok(None) => Ok(cs),
                Ok(Some(c)) => Ok(cs.push(c)),
            },
        }
    }
}

/// The store `old` with `building` under `id`.
pub open spec fn stored(old: Seq<Option<Building>>, id: Id, building: Building) -> Seq<
    Option<Building>,
> {
    if id.0 < old.len() {
        old.update(id.0 as int, Some(building))
    } else {
        old.push(Some(building))
    }
}

/// The board `new` is `old` with the footprint of `building` on it, every
/// cell of it owned by `id`, and nothing else changed.
pub open spec fn is_stamped_board(old: Board, building: Building, id: Id, new: Board) -> bool {
    &&& new.wf()
    &&& new.width == old.width
    &&& new.height == old.height
    &&& forall|i: int|
        0 <= i < building.spec_cell_count() ==> new.in_bounds(#[trigger] building.spec_cell_pos(i))
            && new.at(building.spec_cell_pos(i)) == Some(
            Cell { kind: building.spec_cell_kind(i), id },
        )
    &&& forall|p: Pos| old.in_bounds(p) && !building.covers(p) ==> new.at(p) == old.at(p)
}

/// The scene `mid` is `old` with `building` stored under `id` and its
/// footprint on the board, and no connection made yet.
pub open spec fn is_stamped(old: Sim, building: Building, id: Id, mid: Sim) -> bool {
    &&& mid.products == old.products
    &&& mid.turns == old.turns
    &&& mid.time == old.time
    &&& mid.connections@ == old.connections@
    &&& mid.buildings.values@ == stored(old.buildings.values@, id, building)
    &&& is_stamped_board(old.board, building, id, mid.board)
}

/// What `place_building` does to the scene `old`, leaving `new`.
///
/// Where a footprint cell cannot be put, the result is the error of the
/// first such cell and the scene is as before. Otherwise the building gets
/// the first free identifier and its footprint is put on the board; on that
/// scene the adjacency checks are made in order. If one fails, the result
/// is its error and the scene is as before; if none does, the result is the
/// identifier and the scene holds the building, its cells and the new
/// connections.
pub open spec fn placed(old: Sim, building: Building, res: Result<Id, Error>, new: Sim) -> bool {
    let id = Id(crate::building::first_free(old.buildings.values@) as u16);
    match blocked(old, building, building.spec_cell_count()) {
        Some(e) => res == Err::<Id, Error>(e) && new.same_as(old),
        None => exists|mid: Sim| #[trigger]
            is_stamped(old, building, id, mid) && match links(
                mid,
                building,
                building.spec_probe_count(),
            ) {
                Err(e) => res == Err::<Id, Error>(e) && new.same_as(old),
                Ok(cs) => {
                    &&& res == Ok::<Id, Error>(id)
                    &&& new.connections@ == cs
                    &&& new.board == mid.board
                    &&& new.buildings == mid.buildings
                    &&& new.products == old.products
                    &&& new.turns == old.turns
                    &&& new.time == old.time
                },
            },
    }
}

/// Once a cell is blocked, the verdict stays.
pub proof fn lemma_blocked_stays(sim: Sim, building: Building, n: int, m: int)
    requires
        0 <= n <= m,
        blocked(sim, building, n) is Some,
    ensures
        blocked(sim, building, m) == blocked(sim, building, n),
    decreases m,
{
    if n < m {
        lemma_blocked_stays(sim, building, n, m - 1);
    }
}

/// Two scenes with the same board, whose stores agree on the owners of its
/// cells, block the same footprint cells.
pub proof fn lemma_blocked_same(a: Sim, b: Sim, building: Building, n: int)
    requires
        a.board == b.board,
        a.cells_owned(),
        forall|id: Id| a.buildings.live(id) ==> a.buildings.spec_get(id) == b.buildings.spec_get(id),
    ensures
        blocked(a, building, n) == blocked(b, building, n),
    decreases n,
{
    if n > 0 {
        lemma_blocked_same(a, b, building, n - 1);
    }
}

/// No two footprint cells of a building lie at the same position.
pub proof fn lemma_footprint_distinct(building: Building, i: int, j: int)
    requires
        building.spec_representable(),
        0 <= i < building.spec_cell_count(),
        0 <= j < building.spec_cell_count(),
        i != j,
    ensures
        building.spec_cell_pos(i) != building.spec_cell_pos(j),
{
    building.lemma_cell_fits(i);
    building.lemma_cell_fits(j);
    if building.has_shape() {
        crate::templates::lemma_cells_distinct(
            building.spec_shape(),
            building.spec_rotation(),
            i,
            j,
        );
    } else {
        let w = building.spec_width();
        if building.spec_cell_offset(i) == building.spec_cell_offset(j) {
            assert(w > 0) by (nonlinear_arith)
                requires
                    0 <= i < w * building.spec_height(),
                    0 <= w,
            ;
            crate::board::lemma_index_split(w, building.spec_height(), i);
            crate::board::lemma_index_split(w, building.spec_height(), j);
        }
    }
}

/// Puts back what stood at the first `n` footprint cells before they were
/// stamped.
fn unstamp(board: &mut Board, building: Building, prev: &Vec<Option<Cell>>, n: usize)
    requires
        old(board).wf(),
        building.spec_representable(),
        n <= building.spec_cell_count(),
        n <= prev@.len(),
        forall|j: int| 0 <= j < n ==> old(board).in_bounds(#[trigger] building.spec_cell_pos(j)),
    ensures
        final(board).wf(),
        final(board).width == old(board).width,
        final(board).height == old(board).height,
        forall|j: int| 0 <= j < n ==> final(board).at(#[trigger] building.spec_cell_pos(j)) == prev@[j],
        forall|p: Pos|
            old(board).in_bounds(p) && (forall|j: int| 0 <= j < n ==> building.spec_cell_pos(j) != p)
                ==> final(board).at(p) == old(board).at(p),
{
    let mut j: usize = 0;
    while j < n
        invariant
            j <= n,
            n <= building.spec_cell_count(),
            n <= prev@.len(),
            building.spec_representable(),
            board.wf(),
            board.width == old(board).width,
            board.height == old(board).height,
            forall|k: int| 0 <= k < n ==> board.in_bounds(#[trigger] building.spec_cell_pos(k)),
            forall|k: int| 0 <= k < j ==> board.at(#[trigger] building.spec_cell_pos(k)) == prev@[k],
            forall|p: Pos|
                old(board).in_bounds(p) && (forall|k: int|
                    0 <= k < j ==> building.spec_cell_pos(k) != p) ==> board.at(p) == old(board).at(p),
        decreases n - j,
    {
        let (p, _) = building.cell(j);
        let ghost before = *board;
        board.set(p, prev[j]);
        proof {
            assert forall|k: int| 0 <= k < j + 1 implies board.at(
                #[trigger] building.spec_cell_pos(k),
            ) == prev@[k] by {
                if k < j {
                    lemma_footprint_distinct(building, k, j as int);
                    assert(before.at(building.spec_cell_pos(k)) == prev@[k]);
                }
            }
        }
        j += 1;
    }
}

/// Puts the footprint of the building stored under `id` on the board, cell
/// by cell, and returns what stood at each cell before. If a cell cannot be
/// put, the board is left as it was.
fn stamp(sim: &mut Sim, building: Building, id: Id) -> (res: Result<Vec<Option<Cell>>, Error>)
    requires
        old(sim).wf(),
        old(sim).buildings.live(id),
        old(sim).buildings.spec_get(id) == building,
        building.spec_representable(),
    ensures
        final(sim).wf(),
        final(sim).products == old(sim).products,
        final(sim).buildings == old(sim).buildings,
        final(sim).connections == old(sim).connections,
        final(sim).turns == old(sim).turns,
        final(sim).time == old(sim).time,
        match blocked(*old(sim), building, building.spec_cell_count()) {
            Some(e) => res == Err::<Vec<Option<Cell>>, Error>(e) && final(sim).board.same_as(
                old(sim).board,
            ),
            None => {
                &&& res is Ok
                &&& res->Ok_0@.len() == building.spec_cell_count()
                &&& forall|i: int|
                    0 <= i < building.spec_cell_count() ==> res->Ok_0@[i] == old(sim).board.at(
                        #[trigger] building.spec_cell_pos(i),
                    )
                &&& is_stamped_board(old(sim).board, building, id, final(sim).board)
            },
        },
{
    let n = building.cell_count();
    let mut prev: Vec<Option<Cell>> = Vec::new();
    let mut i: usize = 0;
    while i < n
        invariant
            i <= n,
            n == building.spec_cell_count(),
            building.spec_representable(),
            old(sim).wf(),
            sim.wf(),
            sim.products == old(sim).products,
            sim.buildings == old(sim).buildings,
            sim.connections == old(sim).connections,
            sim.turns == old(sim).turns,
            sim.time == old(sim).time,
            sim.board.width == old(sim).board.width,
            sim.board.height == old(sim).board.height,
            sim.buildings.live(id),
            sim.buildings.spec_get(id) == building,
            blocked(*old(sim), building, i as int) is None,
            prev@.len() == i,
            forall|j: int|
                0 <= j < i ==> sim.board.in_bounds(#[trigger] building.spec_cell_pos(j))
                    && prev@[j] == old(sim).board.at(building.spec_cell_pos(j)) && sim.board.at(
                    building.spec_cell_pos(j),
                ) == Some(Cell { kind: building.spec_cell_kind(j), id }),
            forall|p: Pos|
                old(sim).board.in_bounds(p) && (forall|j: int|
                    0 <= j < i ==> building.spec_cell_pos(j) != p) ==> sim.board.at(p) == old(sim).board.at(p),
        decreases n - i,
    {
        let (p, kind) = building.cell(i);
        let ghost before = *sim;
        proof {
            assert forall|j: int| 0 <= j < i implies building.spec_cell_pos(j) != p by {
                lemma_footprint_distinct(building, j, i as int);
            }
        }
        let was = sim.board.get(p);
        match place_cell(sim, p, Cell::new(kind, id)) {
            Ok(()) => {
                proof {
                    assert(was == Some(old(sim).board.at(p)));
                    assert forall|j: int| 0 <= j < i + 1 implies sim.board.in_bounds(
                        #[trigger] building.spec_cell_pos(j),
                    ) && sim.board.at(building.spec_cell_pos(j)) == Some(
                        Cell { kind: building.spec_cell_kind(j), id },
                    ) by {
                        if j < i {
                            lemma_footprint_distinct(building, j, i as int);
                            assert(before.board.in_bounds(building.spec_cell_pos(j)));
                        }
                    }
                }
                prev.push(
                    match was {
                        Some(c) => c,
                        None => None,
                    },
                );
            },
            Err(e) => {
                proof {
                    assert(blocked(*old(sim), building, i as int + 1) == Some(e));
                    lemma_blocked_stays(*old(sim), building, i as int + 1, n as int);
                }
                unstamp(&mut sim.board, building, &prev, i);
                proof {
                    assert forall|q: Pos| sim.board.in_bounds(q) implies sim.board.at(q) == old(sim).board.at(q) by {
                        if exists|j: int| 0 <= j < i && building.spec_cell_pos(j) == q {
                            let j = choose|j: int| 0 <= j < i && building.spec_cell_pos(j) == q;
                            assert(sim.board.at(building.spec_cell_pos(j)) == prev@[j]);
                        }
                    }
                    sim.board.lemma_same(old(sim).board);
                    lemma_same_board_wf(*old(sim), *sim);
                }
                return Err(e);
            },
        }
        i += 1;
    }
    proof {
        assert forall|p: Pos| old(sim).board.in_bounds(p) && !building.covers(p) implies sim.board.at(
            p,
        ) == old(sim).board.at(p) by {
            assert(forall|j: int| 0 <= j < n ==> building.spec_cell_pos(j) != p);
        }
    }
    Ok(prev)
}

/// A scene stays consistent when its board is replaced by one that holds
/// the same cells and nothing else changes.
pub proof fn lemma_same_board_wf(a: Sim, b: Sim)
    requires
        a.wf(),
        b.board.same_as(a.board),
        b.buildings.values@ == a.buildings.values@,
        b.connections@ == a.connections@,
    ensures
        b.wf(),
{
    assert forall|p: Pos| b.board.in_bounds(p) && b.board.at(p) is Some implies {
        let c = (#[trigger] b.board.at(p))->0;
        &&& b.buildings.live(c.id)
        &&& b.buildings.spec_get(c.id).spec_owns(p, c.kind)
    } by {
        assert(a.board.at(p) == b.board.at(p));
    }
    assert forall|i: int| 0 <= i < b.connections@.len() implies b.link_ok(
        #[trigger] b.connections@[i],
    ) by {
        assert(a.link_ok(a.connections@[i]));
    }
}

/// Makes the adjacency checks of `building` in order, appending a
/// connection for each pair of an output and an input that may be joined,
/// and stops at the first pair that may not.
fn link(sim: &mut Sim, building: Building) -> (res: Result<(), Error>)
    requires
        old(sim).wf(),
        building.spec_representable(),
    ensures
        final(sim).wf(),
        final(sim).products == old(sim).products,
        final(sim).buildings == old(sim).buildings,
        final(sim).board == old(sim).board,
        final(sim).turns == old(sim).turns,
        final(sim).time == old(sim).time,
        final(sim).connections@.len() >= old(sim).connections@.len(),
        final(sim).connections@.subrange(0, old(sim).connections@.len() as int) == old(sim).connections@,
        match links(*old(sim), building, building.spec_probe_count()) {
            Ok(cs) => res is Ok && final(sim).connections@ == cs,
            Err(e) => res == Err::<(), Error>(e),
        },
{
    let n = building.probe_count();
    let mut i: usize = 0;
    while i < n
        invariant
            i <= n,
            n == building.spec_probe_count(),
            building.spec_representable(),
            sim.wf(),
            sim.products == old(sim).products,
            sim.buildings == old(sim).buildings,
            sim.board == old(sim).board,
            sim.turns == old(sim).turns,
            sim.time == old(sim).time,
            sim.connections@.len() >= old(sim).connections@.len(),
            sim.connections@.subrange(0, old(sim).connections@.len() as int) == old(sim).connections@,
            links(*old(sim), building, i as int) == Ok::<Seq<Connection>, Error>(sim.connections@),
        decreases n - i,
    {
        let (a, b) = building.probe(i);
        proof {
            building.lemma_probe_fits(i as int);
        }
        let ghost before = sim.connections@;
        match check_adjacent_cells(sim, a, b) {
            Ok(()) => {
                proof {
                    assert(sim.connections@.subrange(0, old(sim).connections@.len() as int)
                        =~= before.subrange(0, old(sim).connections@.len() as int));
                }
            },
            Err(e) => {
                proof {
                    assert(links(*old(sim), building, i as int + 1) == Err::<
                        Seq<Connection>,
                        Error,
                    >(e));
                    lemma_links_stay(*old(sim), building, i as int + 1, n as int);
                }
                return Err(e);
            },
        }
        i += 1;
    }
    Ok(())
}

/// Once an adjacency check has failed, the error stays.
pub proof fn lemma_links_stay(mid: Sim, building: Building, n: int, m: int)
    requires
        0 <= n <= m,
        links(mid, building, n) is Err,
    ensures
        links(mid, building, m) == links(mid, building, n),
    decreases m,
{
    if n < m {
        lemma_links_stay(mid, building, n, m - 1);
    }
}

/// Places `building` on the scene: stores it under the first free
/// identifier, puts its footprint on the board and connects it to the
/// neighbours it touches. On any error the scene is left as it was.
pub fn place_building(sim: &mut Sim, building: Building) -> (res: Result<Id, Error>)
    requires
        old(sim).wf(),
        old(sim).buildings.has_room(),
        building.spec_representable(),
    ensures
        final(sim).wf(),
        placed(*old(sim), building, res, *final(sim)),
        res is Ok ==> {
            &&& final(sim).buildings.live(res->Ok_0)
            &&& !old(sim).buildings.live(res->Ok_0)
            &&& final(sim).buildings.spec_get(res->Ok_0) == building
            &&& final(sim).buildings.values@ == stored(
                old(sim).buildings.values@,
                res->Ok_0,
                building,
            )
            &&& is_stamped_board(old(sim).board, building, res->Ok_0, final(sim).board)
            &&& final(sim).connections@.len() >= old(sim).connections@.len()
            &&& final(sim).connections@.subrange(0, old(sim).connections@.len() as int) == old(sim).connections@
        },
{
    let ghost start = *sim;
    let old_slots = sim.buildings.values.len();
    let old_links = sim.connections.len();
    let id = sim.buildings.push(building);
    proof {
        assert(sim.wf()) by {
            assert forall|i: int| 0 <= i < sim.connections@.len() implies sim.link_ok(
                #[trigger] sim.connections@[i],
            ) by {
                assert(start.link_ok(start.connections@[i]));
            }
        }
        lemma_blocked_same(start, *sim, building, building.spec_cell_count());
    }
    let ghost mut witness = *sim;
    let failure = match stamp(sim, building, id) {
        Err(e) => e,
        Ok(prev) => {
            let ghost mid = *sim;
            proof {
                assert(is_stamped(start, building, id, mid));
            }
            match link(sim, building) {
                Ok(()) => {
                    proof {
                        assert(id == Id(crate::building::first_free(start.buildings.values@) as u16));
                        assert(placed(start, building, Ok::<Id, Error>(id), *sim));
                    }
                    return Ok(id);
                },
                Err(e) => {
                    proof {
                        witness = mid;
                    }
                    sim.connections.truncate(old_links);
                    proof {
                        assert(sim.connections@ =~= start.connections@);
                    }
                    unstamp(&mut sim.board, building, &prev, prev.len());
                    proof {
                        assert forall|q: Pos| sim.board.in_bounds(q) implies sim.board.at(q)
                            == start.board.at(q) by {
                            if building.covers(q) {
                                let j = choose|j: int|
                                    0 <= j < building.spec_cell_count() && building.spec_cell_pos(
                                        j,
                                    ) == q;
                                assert(sim.board.at(building.spec_cell_pos(j)) == prev@[j]);
                            } else {
                                assert(forall|j: int|
                                    0 <= j < building.spec_cell_count()
                                        ==> building.spec_cell_pos(j) != q);
                            }
                        }
                        sim.board.lemma_same(start.board);
                    }
                    e
                },
            }
        },
    };
    if id.0 as usize == old_slots {
        sim.buildings.values.pop();
    } else {
        sim.buildings.values[id.0 as usize] = None;
    }
    proof {
        assert(sim.buildings.values@ =~= start.buildings.values@);
        lemma_same_board_wf(start, *sim);
        if blocked(start, building, building.spec_cell_count()) is None {
            assert(is_stamped(start, building, id, witness));
        }
        assert(id == Id(crate::building::first_free(start.buildings.values@) as u16));
    }
    Err(failure)
}

/// What stands at `p` once every cell of `id` is taken off `board`:
/// nothing off the board.
pub open spec fn cleared_at(board: Board, id: Id, p: Pos) -> Option<Cell> {
    if board.in_bounds(p) && board.at(p) is Some && board.at(p)->0.id != id {
        board.at(p)
    } else {
        None
    }
}

/// What is put back at `p`, where an inert cell of the removed conveyor
/// `id` stood. The neighbours on either side, across the conveyor, are
/// looked at once all cells of `id` are gone. If both are occupied by one
/// building, `p` was a crossing with it and becomes its inert cell. If they
/// differ, but the cell two steps away on one side belongs to the owner of
/// the neighbour on the other side, `p` becomes an inert cell of that
/// owner. In either case `p` is given back only if it is an inert cell of
/// the owner's footprint. Otherwise `p` stays empty.
pub open spec fn reinstated(
    board: Board,
    buildings: Buildings,
    id: Id,
    p: Pos,
    vertical: bool,
) -> Option<Cell> {
    let dx: int = if vertical {
        1
    } else {
        0
    };
    let dy: int = 1 - dx;
    let near_a = cleared_at(board, id, p.shifted(-dx, -dy));
    let near_b = cleared_at(board, id, p.shifted(dx, dy));
    let far_a = cleared_at(board, id, p.shifted(-2 * dx, -2 * dy));
    let far_b = cleared_at(board, id, p.shifted(2 * dx, 2 * dy));
    if near_a is Some && near_b is Some {
        if near_a->0.id == near_b->0.id {
            given_back(buildings, near_a->0.id, p)
        } else if far_b is Some && far_b->0.id == near_a->0.id {
            given_back(buildings, near_a->0.id, p)
        } else if far_a is Some && far_a->0.id == near_b->0.id {
            given_back(buildings, near_b->0.id, p)
        } else {
            None
        }
    } else {
        None
    }
}

/// The cell at `p` as an inert cell of the building `owner`, if that is a
/// cell of the building's footprint.
pub open spec fn given_back(buildings: Buildings, owner: Id, p: Pos) -> Option<Cell> {
    if buildings.spec_get(owner).spec_owns(p, CellKind::Inert) {
        Some(Cell { kind: CellKind::Inert, id: owner })
    } else {
        None
    }
}

/// What stands at `p` after the building `id` is removed from `sim`: the
/// cells of other buildings stay, the cells of `id` go, and an inert cell
/// of a conveyor is given back to the conveyor it crossed.
pub open spec fn removed_at(sim: Sim, id: Id, p: Pos) -> Option<Cell> {
    let b = sim.buildings.spec_get(id);
    match sim.board.at(p) {
        Some(c) => if c.id != id {
            Some(c)
        } else if b is Conveyor && c.kind == CellKind::Inert {
            reinstated(sim.board, sim.buildings, id, p, b.spec_rotation().spec_is_vertical())
        } else {
            None
        },
        None => None,
    }
}

/// Takes every cell of `id` off the board and, if `collect`, returns where
/// its inert cells stood.
fn clear_cells(board: &mut Board, id: Id, collect: bool) -> (holes: Vec<Pos>)
    requires
        old(board).wf(),
    ensures
        final(board).wf(),
        final(board).width == old(board).width,
        final(board).height == old(board).height,
        forall|p: Pos|
            old(board).in_bounds(p) ==> final(board).at(p) == cleared_at(*old(board), id, p),
        forall|k: int|
            0 <= k < holes@.len() ==> old(board).in_bounds(#[trigger] holes@[k]) && old(board).at(
                holes@[k],
            ) == Some(Cell { kind: CellKind::Inert, id }),
        !collect ==> holes@.len() == 0,
        collect ==> forall|p: Pos|
            old(board).in_bounds(p) && old(board).at(p) == Some(Cell { kind: CellKind::Inert, id })
                ==> holes@.contains(p),
{
    let mut holes: Vec<Pos> = Vec::new();
    let mut y: i8 = 0;
    while y < board.height
        invariant
            0 <= y <= board.height,
            board.wf(),
            board.width == old(board).width,
            board.height == old(board).height,
            forall|p: Pos|
                old(board).in_bounds(p) ==> board.at(p) == if p.y < y {
                    cleared_at(*old(board), id, p)
                } else {
                    old(board).at(p)
                },
            forall|k: int|
                0 <= k < holes@.len() ==> old(board).in_bounds(#[trigger] holes@[k]) && old(board).at(holes@[k]) == Some(Cell { kind: CellKind::Inert, id }),
            !collect ==> holes@.len() == 0,
            collect ==> forall|p: Pos|
                old(board).in_bounds(p) && p.y < y && old(board).at(p) == Some(
                    Cell { kind: CellKind::Inert, id },
                ) ==> holes@.contains(p),
        decreases board.height - y,
    {
        let mut x: i8 = 0;
        while x < board.width
            invariant
                0 <= x <= board.width,
                0 <= y < board.height,
                board.wf(),
                board.width == old(board).width,
                board.height == old(board).height,
                forall|p: Pos|
                    old(board).in_bounds(p) ==> board.at(p) == if p.y < y || (p.y == y && p.x
                        < x) {
                        cleared_at(*old(board), id, p)
                    } else {
                        old(board).at(p)
                    },
                forall|k: int|
                    0 <= k < holes@.len() ==> old(board).in_bounds(#[trigger] holes@[k]) && old(board).at(holes@[k]) == Some(Cell { kind: CellKind::Inert, id }),
                !collect ==> holes@.len() == 0,
                collect ==> forall|p: Pos|
                    old(board).in_bounds(p) && (p.y < y || (p.y == y && p.x < x)) && old(board).at(
                        p,
                    ) == Some(Cell { kind: CellKind::Inert, id }) ==> holes@.contains(p),
            decreases board.width - x,
        {
            let p = Pos { x, y };
            if let Some(c) = board.cell(p) {
                if c.id == id {
                    board.set(p, None);
                    if collect && c.kind == CellKind::Inert {
                        let ghost before = holes@;
                        holes.push(p);
                        proof {
                            assert(holes@[before.len() as int] == p);
                            assert forall|q: Pos| before.contains(q) implies holes@.contains(
                                q,
                            ) by {
                                let k = choose|k: int| 0 <= k < before.len() && before[k] == q;
                                assert(holes@[k] == q);
                            }
                        }
                    }
                }
            }
            x += 1;
        }
        y += 1;
    }
    holes
}

/// The cell at `p` moved by `(dx, dy)`, or nothing off the board.
fn peek(board: &Board, p: Pos, dx: i8, dy: i8) -> (c: Option<Cell>)
    requires
        board.wf(),
        board.in_bounds(p),
        -2 <= dx <= 2,
        -2 <= dy <= 2,
    ensures
        c == if board.in_bounds(p.shifted(dx as int, dy as int)) {
            board.at(p.shifted(dx as int, dy as int))
        } else {
            None
        },
{
    match board.get(Pos { x: p.x + dx, y: p.y + dy }) {
        Some(c) => c,
        None => None,
    }
}

/// Decides what is put back at the hole `p`; `board` is the board without
/// the cells of the removed conveyor, and `buildings` the store without it.
fn refill(
    board: &Board,
    buildings: &Buildings,
    p: Pos,
    vertical: bool,
    Ghost(old): Ghost<Sim>,
    Ghost(id): Ghost<Id>,
) -> (c: Option<Cell>)
    requires
        board.wf(),
        board.in_bounds(p),
        old.wf(),
        old.buildings.live(id),
        old.board.width == board.width,
        old.board.height == board.height,
        buildings.values@ == old.buildings.values@.update(id.0 as int, None),
        forall|q: Pos| board.in_bounds(q) ==> board.at(q) == cleared_at(old.board, id, q),
    ensures
        c == reinstated(old.board, old.buildings, id, p, vertical),
{
    let dx: i8 = if vertical {
        1
    } else {
        0
    };
    let dy: i8 = 1 - dx;
    let near_a = peek(board, p, -dx, -dy);
    let near_b = peek(board, p, dx, dy);
    match (near_a, near_b) {
        (Some(a), Some(b)) => {
            let owner = if a.id == b.id {
                a.id
            } else {
                let far_a = peek(board, p, -2 * dx, -2 * dy);
                let far_b = peek(board, p, 2 * dx, 2 * dy);
                match (far_a, far_b) {
                    (_, Some(t)) if t.id == a.id => a.id,
                    (Some(t), _) if t.id == b.id => b.id,
                    _ => {
                        return None;
                    },
                }
            };
            proof {
                let qa = p.shifted(-(dx as int), -(dy as int));
                let qb = p.shifted(dx as int, dy as int);
                assert(old.board.at(qa) == Some(a) && old.board.at(qb) == Some(b));
                assert(old.buildings.live(owner));
                assert(owner != id);
            }
            if buildings.get(owner).owns(p, CellKind::Inert) {
                Some(Cell::inert(owner))
            } else {
                None
            }
        },
        _ => None,
    }
}

/// The test that a connection neither starts nor ends at `id`.
pub open spec fn untouched(id: Id) -> spec_fn(Connection) -> bool {
    |c: Connection| !c.touches(id)
}

/// The connections of `conns` that neither start nor end at `id`, in order.
fn drop_links(conns: &Vec<Connection>, id: Id) -> (kept: Vec<Connection>)
    ensures
        kept@ == conns@.filter(untouched(id)),
{
    let ghost pred = untouched(id);
    let mut kept: Vec<Connection> = Vec::new();
    let mut i: usize = 0;
    while i < conns.len()
        invariant
            i <= conns@.len(),
            pred == untouched(id),
            kept@ == conns@.take(i as int).filter(pred),
        decreases conns@.len() - i,
    {
        let c = conns[i];
        proof {
            reveal(Seq::filter);
            let s1 = conns@.take(i as int + 1);
            assert(s1.drop_last() =~= conns@.take(i as int));
            assert(s1.last() == c);
            assert(pred(c) == (c.input_id != id && c.output_id != id));
            assert(s1.filter(pred) == if pred(c) {
                s1.drop_last().filter(pred).push(c)
            } else {
                s1.drop_last().filter(pred)
            });
        }
        if c.input_id != id && c.output_id != id {
            kept.push(c);
        }
        i += 1;
    }
    proof {
        assert(conns@.take(conns@.len() as int) =~= conns@);
    }
    kept
}

/// Every kept connection is one of the old ones, and they come in the old
/// order.
pub proof fn lemma_filter_order(s: Seq<Connection>, pred: spec_fn(Connection) -> bool)
    ensures
        forall|a: int, b: int|
            0 <= a < b < s.filter(pred).len() ==> exists|i: int, j: int|
                0 <= i < j < s.len() && s[i] == #[trigger] s.filter(pred)[a] && s[j]
                    == #[trigger] s.filter(pred)[b],
        forall|a: int|
            0 <= a < s.filter(pred).len() ==> pred(#[trigger] s.filter(pred)[a]) && exists|i: int|
                0 <= i < s.len() && s[i] == s.filter(pred)[a],
    decreases s.len(),
{
    reveal(Seq::filter);
    if s.len() > 0 {
        let t = s.drop_last();
        lemma_filter_order(t, pred);
        let f = s.filter(pred);
        let g = t.filter(pred);
        assert(f == if pred(s.last()) {
            g.push(s.last())
        } else {
            g
        });
        assert forall|a: int| 0 <= a < f.len() implies pred(#[trigger] f[a]) && exists|i: int|
            0 <= i < s.len() && s[i] == f[a] by {
            if a < g.len() {
                let i = choose|i: int| 0 <= i < t.len() && t[i] == g[a];
                assert(s[i] == f[a]);
            } else {
                assert(s[s.len() - 1] == f[a]);
            }
        }
        assert forall|a: int, b: int| 0 <= a < b < f.len() implies exists|i: int, j: int|
            0 <= i < j < s.len() && s[i] == #[trigger] f[a] && s[j] == #[trigger] f[b] by {
            if b < g.len() {
                let (i, j) = choose|i: int, j: int|
                    0 <= i < j < t.len() && t[i] == g[a] && t[j] == g[b];
                assert(s[i] == f[a] && s[j] == f[b]);
            } else {
                let i = choose|i: int| 0 <= i < t.len() && t[i] == g[a];
                assert(s[i] == f[a] && s[s.len() - 1] == f[b]);
            }
        }
    }
}

/// Removes the building `id` from the scene and returns it: its cells are
/// taken off the board, its connections dropped and its identifier freed.
/// Where an inert cell of a removed conveyor crossed another conveyor, the
/// cell is given back to that conveyor; see `reinstated`.
pub fn remove_building(sim: &mut Sim, id: Id) -> (building: Building)
    requires
        old(sim).wf(),
        old(sim).buildings.live(id),
    ensures
        final(sim).wf(),
        building == old(sim).buildings.spec_get(id),
        final(sim).buildings.values@ == old(sim).buildings.values@.update(id.0 as int, None),
        final(sim).connections@ == old(sim).connections@.filter(untouched(id)),
        final(sim).board.width == old(sim).board.width,
        final(sim).board.height == old(sim).board.height,
        forall|p: Pos|
            old(sim).board.in_bounds(p) ==> final(sim).board.at(p) == removed_at(*old(sim), id, p),
        final(sim).products == old(sim).products,
        final(sim).turns == old(sim).turns,
        final(sim).time == old(sim).time,
{
    let building = sim.buildings.remove(id);
    let (is_conveyor, vertical) = match &building {
        Building::Conveyor(c) => (true, c.rotation.is_vertical()),
        _ => (false, false),
    };
    let holes = clear_cells(&mut sim.board, id, is_conveyor);
    let ghost cleared = sim.board;
    let mut fills: Vec<Option<Cell>> = Vec::new();
    let mut k: usize = 0;
    while k < holes.len()
        invariant
            k <= holes@.len(),
            fills@.len() == k,
            old(sim).wf(),
            old(sim).buildings.live(id),
            sim.products == old(sim).products,
            sim.connections == old(sim).connections,
            sim.buildings.values@ == old(sim).buildings.values@.update(id.0 as int, None),
            sim.turns == old(sim).turns,
            sim.time == old(sim).time,
            sim.board == cleared,
            cleared.wf(),
            cleared.width == old(sim).board.width,
            cleared.height == old(sim).board.height,
            forall|p: Pos|
                cleared.in_bounds(p) ==> cleared.at(p) == cleared_at(old(sim).board, id, p),
            forall|j: int| 0 <= j < holes@.len() ==> cleared.in_bounds(#[trigger] holes@[j]),
            forall|j: int|
                0 <= j < k ==> #[trigger] fills@[j] == reinstated(
                    old(sim).board,
                    old(sim).buildings,
                    id,
                    holes@[j],
                    vertical,
                ),
        decreases holes@.len() - k,
    {
        let c = refill(&sim.board, &sim.buildings, holes[k], vertical, Ghost(*old(sim)), Ghost(id));
        fills.push(c);
        k += 1;
    }
    let mut k: usize = 0;
    while k < holes.len()
        invariant
            k <= holes@.len(),
            fills@.len() == holes@.len(),
            old(sim).wf(),
            old(sim).buildings.live(id),
            sim.products == old(sim).products,
            sim.connections == old(sim).connections,
            sim.buildings.values@ == old(sim).buildings.values@.update(id.0 as int, None),
            sim.turns == old(sim).turns,
            sim.time == old(sim).time,
            sim.board.wf(),
            sim.board.width == cleared.width,
            sim.board.height == cleared.height,
            forall|j: int| 0 <= j < holes@.len() ==> cleared.in_bounds(#[trigger] holes@[j]),
            forall|j: int|
                0 <= j < holes@.len() ==> #[trigger] fills@[j] == reinstated(
                    old(sim).board,
                    old(sim).buildings,
                    id,
                    holes@[j],
                    vertical,
                ),
            forall|j: int|
                0 <= j < k ==> sim.board.at(#[trigger] holes@[j]) == reinstated(
                    old(sim).board,
                    old(sim).buildings,
                    id,
                    holes@[j],
                    vertical,
                ),
            forall|p: Pos|
                cleared.in_bounds(p) && !holes@.contains(p) ==> sim.board.at(p) == cleared.at(p),
        decreases holes@.len() - k,
    {
        let ghost before = sim.board;
        sim.board.set(holes[k], fills[k]);
        proof {
            assert forall|j: int| 0 <= j < k + 1 implies sim.board.at(#[trigger] holes@[j])
                == reinstated(old(sim).board, old(sim).buildings, id, holes@[j], vertical) by {
                if holes@[j] != holes@[k as int] {
                    assert(before.at(holes@[j]) == reinstated(
                        old(sim).board,
                        old(sim).buildings,
                        id,
                        holes@[j],
                        vertical,
                    ));
                }
            }
            assert forall|p: Pos| cleared.in_bounds(p) && !holes@.contains(p) implies sim.board.at(
                p,
            ) == cleared.at(p) by {
                assert(holes@[k as int] != p);
            }
        }
        k += 1;
    }
    sim.connections = drop_links(&sim.connections, id);
    proof {
        let start = *old(sim);
        assert forall|p: Pos| start.board.in_bounds(p) implies sim.board.at(p) == removed_at(
            start,
            id,
            p,
        ) by {
            if holes@.contains(p) {
                let j = choose|j: int| 0 <= j < holes@.len() && holes@[j] == p;
                assert(sim.board.at(holes@[j]) == reinstated(
                    start.board,
                    start.buildings,
                    id,
                    holes@[j],
                    vertical,
                ));
            }
        }
        assert forall|p: Pos| sim.board.in_bounds(p) && sim.board.at(p) is Some implies {
            let c = (#[trigger] sim.board.at(p))->0;
            &&& sim.buildings.live(c.id)
            &&& sim.buildings.spec_get(c.id).spec_owns(p, c.kind)
        } by {
            lemma_removed_owner(start, id, p);
        }
        let pred = untouched(id);
        lemma_filter_order(start.connections@, pred);
        assert forall|i: int| 0 <= i < sim.connections@.len() implies sim.link_ok(
            #[trigger] sim.connections@[i],
        ) by {
            let c = sim.connections@[i];
            let j = choose|j: int| 0 <= j < start.connections@.len() && start.connections@[j] == c;
            assert(start.link_ok(start.connections@[j]));
        }
        assert forall|i: int, j: int| 0 <= i < j < sim.connections@.len() implies (
        #[trigger] sim.connections@[i]).output_pos != (#[trigger] sim.connections@[j]).output_pos by {
            let (a, b) = choose|a: int, b: int|
                0 <= a < b < start.connections@.len() && start.connections@[a]
                    == sim.connections@[i] && start.connections@[b] == sim.connections@[j];
            assert(start.connections@[a].output_pos != start.connections@[b].output_pos);
        }
    }
    building
}

/// What `removed_at` leaves at a cell belongs to a building other than the
/// removed one that stood on the board before.
pub proof fn lemma_removed_owner(sim: Sim, id: Id, p: Pos)
    requires
        sim.wf(),
        sim.board.in_bounds(p),
        removed_at(sim, id, p) is Some,
    ensures
        removed_at(sim, id, p)->0.id != id,
        sim.buildings.live(removed_at(sim, id, p)->0.id),
        sim.buildings.spec_get(removed_at(sim, id, p)->0.id).spec_owns(
            p,
            removed_at(sim, id, p)->0.kind,
        ),
{
    let c = sim.board.at(p)->0;
    if c.id == id {
        let b = sim.buildings.spec_get(id);
        let vertical = b.spec_rotation().spec_is_vertical();
        let dx: int = if vertical {
            1
        } else {
            0
        };
        let dy: int = 1 - dx;
        let qa = p.shifted(-dx, -dy);
        let qb = p.shifted(dx, dy);
        assert(cleared_at(sim.board, id, qa) is Some);
        assert(cleared_at(sim.board, id, qb) is Some);
        assert(sim.board.at(qa) is Some && sim.board.at(qb) is Some);
    }
}

} // verus!
