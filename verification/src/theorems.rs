use crate::building::Building;
use crate::error::Error;
use crate::flow::{
    egress, ingress, produce, run_model, simulate, spec_yield, Flow, ResourceContainer,
    DEPOSIT_RATE,
};
use crate::geometry::{adjacent, Cell, CellKind, Id, Pos};
use crate::placement::{
    blocked, cell_verdict, feeds, is_stamped, links, placed, probe_verdict, removed_at, untouched,
};
use crate::resources::{Product, ResourceType, Resources};
use crate::scene::{Connection, Sim};
use vstd::prelude::*;

verus! {

/// The ingress phase of two scenes that hold the same is the same.
pub proof fn lemma_ingress_same(a: Sim, b: Sim, f: Flow, n: int)
    requires
        b.same_as(a),
    ensures
        ingress(a, f, n) == ingress(b, f, n),
    decreases n,
{
    if n > 0 {
        lemma_ingress_same(a, b, f, n - 1);
    }
}

/// The egress phase of two scenes that hold the same is the same.
pub proof fn lemma_egress_same(a: Sim, b: Sim, f: Flow, n: int)
    requires
        b.same_as(a),
    ensures
        egress(a, f, n) == egress(b, f, n),
    decreases n,
{
    if n > 0 {
        lemma_egress_same(a, b, f, n - 1);
    }
}

/// The production phase of two scenes that hold the same is the same.
pub proof fn lemma_produce_same(
    a: Sim,
    b: Sim,
    stock: Seq<Option<ResourceContainer>>,
    points: int,
    n: int,
)
    requires
        b.same_as(a),
    ensures
        produce(a, stock, points, n) == produce(b, stock, points, n),
    decreases n,
{
    if n > 0 {
        lemma_produce_same(a, b, stock, points, n - 1);
    }
}

/// The rest of a run of two scenes that hold the same is the same.
pub proof fn lemma_simulate_same(a: Sim, b: Sim, f: Flow, points: int, at_turn: int, turn: int)
    requires
        b.same_as(a),
    ensures
        simulate(a, f, points, at_turn, turn) == simulate(b, f, points, at_turn, turn),
    decreases a.turns - turn,
{
    if turn < a.turns {
        let n = a.connections@.len() as int;
        lemma_ingress_same(a, b, f, n);
        match ingress(a, f, n) {
            None => {},
            Some((g, quiet_in)) => {
                lemma_egress_same(a, b, g, n);
                let (h, quiet_out) = egress(a, g, n);
                lemma_produce_same(a, b, h.stock, points, h.stock.len() as int);
                match produce(a, h.stock, points, h.stock.len() as int) {
                    None => {},
                    Some((stock, pts, produced)) => {
                        if !(quiet_in && quiet_out && !produced) {
                            lemma_simulate_same(
                                a,
                                b,
                                Flow { stock, pipes: h.pipes },
                                pts,
                                if produced {
                                    turn + 1
                                } else {
                                    at_turn
                                },
                                turn + 1,
                            );
                        }
                    },
                }
            },
        }
    }
}

/// Running is deterministic: the outcome of a run depends on nothing but
/// what the scene holds. Two scenes with the same products, buildings,
/// cells, connections and budgets have the same outcome.
pub proof fn lemma_run_same(a: Sim, b: Sim)
    requires
        b.same_as(a),
    ensures
        run_model(a) == run_model(b),
{
    assert(crate::flow::initial_flow(a).stock =~= crate::flow::initial_flow(b).stock);
    assert(crate::flow::initial_flow(a).pipes =~= crate::flow::initial_flow(b).pipes);
    lemma_simulate_same(a, b, crate::flow::initial_flow(a), 0, 0, 0);
}

/// After a building was placed, every cell of its footprint is owned by
/// it, in the role that the footprint gives the cell.
pub proof fn lemma_placed_owns_footprint(old: Sim, building: Building, id: Id, new: Sim, i: int)
    requires
        placed(old, building, Ok::<Id, Error>(id), new),
        0 <= i < building.spec_cell_count(),
    ensures
        new.board.in_bounds(building.spec_cell_pos(i)),
        new.board.at(building.spec_cell_pos(i)) == Some(
            Cell { kind: building.spec_cell_kind(i), id },
        ),
{
    let first = Id(crate::building::first_free(old.buildings.values@) as u16);
    let mid = choose|mid: Sim| #[trigger]
        is_stamped(old, building, first, mid) && match links(
            mid,
            building,
            building.spec_probe_count(),
        ) {
            Err(e) => false,
            Ok(cs) => new.board == mid.board,
        };
    assert(mid.board.in_bounds(building.spec_cell_pos(i)));
}

/// Each adjacency check of a placement leaves the connections as they
/// were or adds exactly one, and the one it adds is legal: it leaves an
/// output cell that fed nothing yet and enters the input cell beside it,
/// between two buildings that may be connected.
pub proof fn lemma_check_adds_one(mid: Sim, building: Building, n: int)
    requires
        mid.wf(),
        building.spec_representable(),
        0 <= n < building.spec_probe_count(),
        links(mid, building, n + 1) is Ok,
    ensures
        links(mid, building, n) is Ok,
        ({
            let before = links(mid, building, n)->Ok_0;
            let after = links(mid, building, n + 1)->Ok_0;
            ||| after == before
            ||| exists|c: Connection|
                {
                    &&& #[trigger] before.push(c) == after
                    &&& mid.link_ok(c)
                    &&& !feeds(before, c.output_pos)
                }
        }),
{
    building.lemma_probe_fits(n);
    let before = links(mid, building, n)->Ok_0;
    let after = links(mid, building, n + 1)->Ok_0;
    let a = building.spec_probe_pos(n);
    let b = building.spec_probe_own(n);
    match probe_verdict(mid.board, mid.buildings, before, a, b) {
        Ok(Some(c)) => {
            assert(mid.board.at(a) is Some && mid.board.at(b) is Some);
            assert(before.push(c) == after);
            assert(mid.link_ok(c));
        },
        _ => {},
    }
}

/// After a building was removed no cell is owned by it, and every cell of
/// another building is as it was; in particular a crossing of two other
/// conveyors keeps its owner.
pub proof fn lemma_removed_cells(sim: Sim, id: Id, p: Pos)
    requires
        sim.wf(),
        sim.buildings.live(id),
        sim.board.in_bounds(p),
    ensures
        removed_at(sim, id, p) matches Some(c) ==> c.id != id,
        sim.board.at(p) matches Some(c) ==> (c.id != id ==> removed_at(sim, id, p) == Some(c)),
        sim.board.at(p) is None ==> removed_at(sim, id, p) is None,
{
    if removed_at(sim, id, p) is Some {
        crate::placement::lemma_removed_owner(sim, id, p);
    }
}

/// After a building was removed no connection touches it, and the
/// connections between other buildings are kept.
pub proof fn lemma_removed_connections(conns: Seq<Connection>, id: Id)
    ensures
        forall|i: int|
            0 <= i < conns.filter(untouched(id)).len() ==> !(#[trigger] conns.filter(
                untouched(id),
            )[i]).touches(id),
        forall|i: int|
            0 <= i < conns.len() && !(#[trigger] conns[i]).touches(id) ==> conns.filter(
                untouched(id),
            ).contains(conns[i]),
{
    conns.filter_lemma(untouched(id));
    assert forall|i: int| 0 <= i < conns.filter(untouched(id)).len() implies !(
    #[trigger] conns.filter(untouched(id))[i]).touches(id) by {
        assert(untouched(id)(conns.filter(untouched(id))[i]));
    }
    assert forall|i: int| 0 <= i < conns.len() && !(#[trigger] conns[i]).touches(
        id,
    ) implies conns.filter(untouched(id)).contains(conns[i]) by {
        assert(untouched(id)(conns[i]));
    }
}

/// In a consistent scene every occupied cell belongs to a stored building,
/// and is a cell of that building's footprint in the role that the cell
/// has.
pub proof fn lemma_cell_in_footprint(sim: Sim, p: Pos)
    requires
        sim.wf(),
        sim.board.in_bounds(p),
        sim.board.at(p) is Some,
    ensures
        ({
            let c = sim.board.at(p)->0;
            &&& sim.buildings.live(c.id)
            &&& sim.buildings.spec_get(c.id).covers_as(p, c.kind)
        }),
{
}

/// In a consistent scene every connection leaves an output cell of its
/// source and enters an input cell of its destination, and the two cells
/// are 4-adjacent.
pub proof fn lemma_connection_joins(sim: Sim, i: int)
    requires
        sim.wf(),
        0 <= i < sim.connections@.len(),
    ensures
        ({
            let c = sim.connections@[i];
            &&& sim.board.at(c.output_pos) == Some(Cell { kind: CellKind::Output, id: c.output_id })
            &&& sim.board.at(c.input_pos) == Some(Cell { kind: CellKind::Input, id: c.input_id })
            &&& adjacent(c.output_pos, c.input_pos)
        }),
{
    assert(sim.link_ok(sim.connections@[i]));
}

/// A placement with a footprint cell off the board fails. If the cells
/// before the first cell off the board are free, it fails with
/// `OutOfBounds` at that cell.
pub proof fn lemma_off_board_fails(sim: Sim, building: Building, i: int)
    requires
        0 <= i < building.spec_cell_count(),
        !sim.board.in_bounds(building.spec_cell_pos(i)),
    ensures
        blocked(sim, building, building.spec_cell_count()) is Some,
        (forall|j: int|
            0 <= j < i ==> #[trigger] cell_verdict(
                sim,
                building,
                building.spec_cell_pos(j),
                building.spec_cell_kind(j),
            ) is None) ==> blocked(sim, building, building.spec_cell_count()) == Some(
            Error::OutOfBounds(building.spec_cell_pos(i)),
        ),
{
    lemma_blocked_none(sim, building, i);
    assert(blocked(sim, building, i + 1) is Some);
    crate::placement::lemma_blocked_stays(sim, building, i + 1, building.spec_cell_count());
}

/// Where every one of the first `n` footprint cells can be put, none is
/// blocked.
pub proof fn lemma_blocked_none(sim: Sim, building: Building, n: int)
    requires
        0 <= n,
    ensures
        (forall|j: int|
            0 <= j < n ==> #[trigger] cell_verdict(
                sim,
                building,
                building.spec_cell_pos(j),
                building.spec_cell_kind(j),
            ) is None) ==> blocked(sim, building, n) is None,
    decreases n,
{
    if n > 0 {
        lemma_blocked_none(sim, building, n - 1);
        if forall|j: int|
            0 <= j < n ==> #[trigger] cell_verdict(
                sim,
                building,
                building.spec_cell_pos(j),
                building.spec_cell_kind(j),
            ) is None {
            assert(cell_verdict(
                sim,
                building,
                building.spec_cell_pos(n - 1),
                building.spec_cell_kind(n - 1),
            ) is None);
        }
    }
}

/// On an occupied cell of the board a cell can be put in one case only: an
/// inert cell of a conveyor on an inert cell of another conveyor. Every
/// other overlap is an `Intersection`.
pub proof fn lemma_overlap(sim: Sim, owner: Building, pos: Pos, kind: CellKind)
    requires
        sim.board.in_bounds(pos),
        sim.board.at(pos) is Some,
    ensures
        ({
            let other = sim.board.at(pos)->0;
            let crossing = owner is Conveyor && sim.buildings.spec_get(other.id) is Conveyor
                && kind == CellKind::Inert && other.kind == CellKind::Inert;
            cell_verdict(sim, owner, pos, kind) == if crossing {
                None
            } else {
                Some(Error::Intersection(pos))
            }
        }),
{
}

/// What a deposit holds after giving out `k` times.
pub open spec fn drained(c: ResourceContainer, k: nat) -> ResourceContainer
    decreases k,
{
    if k == 0 {
        c
    } else {
        drained(c, (k - 1) as nat).spec_after_output()
    }
}

/// A deposit gives out three units a round until it is empty: after `k`
/// rounds it holds `3 * k` units less, or nothing. So a deposit of `w` by
/// `h` cells, which starts with `5 * w * h` units, is empty after
/// `(5 * w * h + 2) / 3` rounds, and not before.
pub proof fn lemma_deposit_drains(t: ResourceType, n: u16, k: nat)
    ensures
        drained(ResourceContainer::Deposit(t, n), k) == ResourceContainer::Deposit(
            t,
            if n >= DEPOSIT_RATE * k {
                (n - DEPOSIT_RATE * k) as u16
            } else {
                0u16
            },
        ),
        k >= (n + 2) / 3 ==> drained(ResourceContainer::Deposit(t, n), k)
            == ResourceContainer::Deposit(t, 0),
        k < (n + 2) / 3 ==> drained(ResourceContainer::Deposit(t, n), k)
            != ResourceContainer::Deposit(t, 0),
    decreases k,
{
    if k > 0 {
        lemma_deposit_drains(t, n, (k - 1) as nat);
    }
}

/// A slot that the recipe does not use sets no limit: a factory that
/// holds every amount the recipe asks for makes at least one unit,
/// whatever it holds of the resources that the recipe leaves out.
pub proof fn lemma_unused_slots_do_not_block(product: Product, held: Resources)
    requires
        forall|i: int|
            0 <= i < 8 && product.resources.amount(i) > 0 ==> held.amount(i)
                >= product.resources.amount(i),
    ensures
        spec_yield(product, held) >= 1,
{
    let q = held.spec_div(product.resources);
    assert forall|i: int| 0 <= i < 8 implies q.amount(i) >= 1 by {
        let r = product.resources.amount(i);
        let h = held.amount(i);
        if r > 0 {
            assert(h / r >= 1) by (nonlinear_arith)
                requires
                    h >= r,
                    r > 0,
            ;
        }
    }
    lemma_least_at_least(q, 8, 1);
}

/// The least of the first `n` amounts is at least `low` if each is.
pub proof fn lemma_least_at_least(r: Resources, n: int, low: int)
    requires
        0 <= n <= 8,
        low <= u16::MAX,
        forall|i: int| 0 <= i < n ==> r.amount(i) >= low,
    ensures
        Resources::least(r, n) >= low,
    decreases n,
{
    if n > 0 {
        lemma_least_at_least(r, n - 1, low);
    }
}

} // verus!
