use crate::building::Building;
use crate::conservation::{
    egress_flow, flow_mass, held_mass, ingress_flow, lemma_egress_conserves,
    lemma_ingress_conserves, lemma_produce_conserves, lemma_total, lemma_total_consume,
    pipes_mass, produce_stock, stock_mass, used,
};
use crate::flow::{
    deposits_fit, egress, flow_fits, ingress, initial_flow, lemma_least_is_least, produce,
    run_model, simulate, spec_container, spec_yield, Flow, ResourceContainer,
};
use crate::resources::{Product, Resources};
use crate::scene::Sim;
use vstd::prelude::*;

verus! {

/// The most points a product may score for the bound below to hold.
pub const MAX_POINTS: u32 = 65537;

/// The most units that the deposits of a scene may hold together for the
/// bound below to hold.
pub const MAX_SUPPLY: u64 = 65535;

/// Every product scores at most `MAX_POINTS`, and a product with an empty
/// recipe scores nothing.
pub open spec fn products_bounded(sim: Sim) -> bool {
    forall|t: int|
        0 <= t < 8 ==> (#[trigger] sim.products.values[t]).points <= MAX_POINTS && (
        sim.products.values[t].resources.total() == 0 ==> sim.products.values[t].points == 0)
}

/// No deposit holds more than 16 bits can count, the deposits hold at most
/// `MAX_SUPPLY` units together, and the products are bounded.
pub open spec fn run_bounded(sim: Sim) -> bool {
    &&& deposits_fit(sim.buildings.values@)
    &&& flow_mass(initial_flow(sim)) <= MAX_SUPPLY
    &&& products_bounded(sim)
}

/// The points after the production phase over the first `n` slots.
pub open spec fn produce_points(
    sim: Sim,
    stock: Seq<Option<ResourceContainer>>,
    points: int,
    n: int,
) -> int {
    match produce(sim, stock, points, n) {
        Some((_, pts, _)) => pts,
        None => points,
    }
}

/// Whether a factory in the first `n` slots produces.
pub open spec fn produce_any(
    sim: Sim,
    stock: Seq<Option<ResourceContainer>>,
    points: int,
    n: int,
) -> bool {
    match produce(sim, stock, points, n) {
        Some((_, _, any)) => any,
        None => false,
    }
}

/// Whether nothing moves in the round: neither in the ingress phase from
/// `f` nor in the egress phase after it.
pub open spec fn quiet(sim: Sim, f: Flow) -> bool {
    let n = sim.connections@.len() as int;
    match ingress(sim, f, n) {
        Some((g, quiet_in)) => {
            let (_, quiet_out) = egress(sim, g, n);
            quiet_in && quiet_out
        },
        None => false,
    }
}

/// No amount is larger than the sum.
pub proof fn lemma_amount_bounded(r: Resources, i: int)
    requires
        0 <= i < 8,
    ensures
        0 <= r.amount(i) <= r.total(),
{
    lemma_total(r);
}

/// No slot holds more than all slots together.
pub proof fn lemma_slot_bounded(stock: Seq<Option<ResourceContainer>>, i: int, n: int)
    requires
        0 <= n <= stock.len(),
    ensures
        0 <= stock_mass(stock, n),
        0 <= i < n ==> held_mass(stock[i]) <= stock_mass(stock, n),
    decreases n,
{
    if n > 0 {
        lemma_slot_bounded(stock, i, n - 1);
        match stock[n - 1] {
            Some(ResourceContainer::Connector(r)) => {
                lemma_total(r);
            },
            Some(ResourceContainer::Factory(_, r)) => {
                lemma_total(r);
            },
            _ => {},
        }
    }
}

/// No pipe holds more than all pipes together.
pub proof fn lemma_pipe_bounded(pipes: Seq<Resources>, i: int, n: int)
    requires
        0 <= n <= pipes.len(),
    ensures
        0 <= pipes_mass(pipes, n),
        0 <= i < n ==> pipes[i].total() <= pipes_mass(pipes, n),
    decreases n,
{
    if n > 0 {
        lemma_pipe_bounded(pipes, i, n - 1);
        lemma_total(pipes[n - 1]);
    }
}

/// While all units together fit in 16 bits, no building takes in more than
/// it can hold: the ingress phase goes through.
pub proof fn lemma_ingress_fits(sim: Sim, f: Flow, n: int)
    requires
        sim.wf(),
        flow_fits(sim, f),
        flow_mass(f) <= MAX_SUPPLY,
        0 <= n <= sim.connections@.len(),
    ensures
        ingress(sim, f, n) is Some,
    decreases n,
{
    if n > 0 {
        lemma_ingress_fits(sim, f, n - 1);
        lemma_ingress_conserves(sim, f, n - 1);
        let g = ingress_flow(sim, f, n - 1);
        let res = g.pipes[n - 1];
        assert(sim.link_ok(sim.connections@[n - 1]));
        let dst = sim.connections@[n - 1].input_id.0 as int;
        let c = g.stock[dst]->0;
        assert(g.stock[dst] is Some);
        assert(!(c is Deposit));
        lemma_slot_bounded(g.stock, dst, g.stock.len() as int);
        lemma_pipe_bounded(g.pipes, n - 1, g.pipes.len() as int);
        assert(held_mass(g.stock[dst]) == c.spec_held().total());
        assert forall|i: int| 0 <= i < 8 implies c.spec_held().amount(i) + res.amount(i)
            <= u16::MAX by {
            lemma_amount_bounded(c.spec_held(), i);
            lemma_amount_bounded(res, i);
        }
        assert(c.can_input(res));
    }
}

/// A recipe that asks for something asks for at least one unit.
pub proof fn lemma_yield_used(product: Product, held: Resources)
    requires
        held.spec_has_at_least(product.resources),
        product.resources.total() > 0,
    ensures
        0 <= spec_yield(product, held) <= spec_yield(product, held) * product.resources.total(),
{
    lemma_least_is_least(held.spec_div(product.resources), 8);
    let count = spec_yield(product, held);
    let total = product.resources.total();
    assert(count <= count * total) by (nonlinear_arith)
        requires
            count >= 0,
            total >= 1,
    ;
}

/// While the points stay below `MAX_POINTS` for each unit used, and the
/// units used and held fit in 16 bits together, the points fit in 32 bits:
/// the production phase goes through, and the bound holds after it.
pub proof fn lemma_produce_fits(
    sim: Sim,
    stock: Seq<Option<ResourceContainer>>,
    points: int,
    n: int,
    spent: int,
)
    requires
        products_bounded(sim),
        0 <= n <= stock.len(),
        0 <= spent,
        stock_mass(stock, stock.len() as int) + spent <= MAX_SUPPLY,
        0 <= points <= MAX_POINTS * spent,
    ensures
        produce(sim, stock, points, n) is Some,
        0 <= used(sim, stock, points, n),
        ({
            let pts = produce_points(sim, stock, points, n);
            0 <= pts <= MAX_POINTS * (spent + used(sim, stock, points, n))
        }),
    decreases n,
{
    if n > 0 {
        lemma_produce_fits(sim, stock, points, n - 1, spent);
        lemma_produce_conserves(sim, stock, points, n - 1);
        let before = produce_stock(sim, stock, points, n - 1);
        let pts = produce_points(sim, stock, points, n - 1);
        let gone = used(sim, stock, points, n - 1);
        lemma_slot_bounded(before, n - 1, before.len() as int);
        match before[n - 1] {
            Some(ResourceContainer::Factory(t, held)) => {
                let product = sim.products.spec_get(t);
                assert(product == sim.products.values[t.spec_slot()]);
                let count = spec_yield(product, held);
                let total = product.resources.total();
                lemma_least_is_least(held.spec_div(product.resources), 8);
                lemma_total(product.resources);
                if count > 0 {
                    lemma_total_consume(product, held);
                    lemma_total(crate::flow::spec_consume(product, held, count));
                    assert(count * total <= held.total());
                    if total > 0 {
                        lemma_yield_used(product, held);
                        assert(product.points * count <= MAX_POINTS * (count * total))
                            by (nonlinear_arith)
                            requires
                                0 <= product.points <= MAX_POINTS,
                                0 <= count <= count * total,
                        ;
                    } else {
                        assert(product.points * count == 0) by (nonlinear_arith)
                            requires
                                product.points == 0,
                        ;
                        assert(count * total == 0) by (nonlinear_arith)
                            requires
                                total == 0,
                        ;
                    }
                    assert(pts + product.points * count <= MAX_POINTS * (spent + gone + count
                        * total)) by (nonlinear_arith)
                        requires
                            pts <= MAX_POINTS * (spent + gone),
                            product.points * count <= MAX_POINTS * (count * total),
                    ;
                    assert(MAX_POINTS * (spent + gone + count * total) <= u32::MAX)
                        by (nonlinear_arith)
                        requires
                            spent + gone + count * total <= 65535,
                            0 <= spent + gone + count * total,
                    ;
                    assert(product.points * count >= 0) by (nonlinear_arith)
                        requires
                            product.points >= 0,
                            count >= 0,
                    ;
                } else {
                    assert(count * total == 0) by (nonlinear_arith)
                        requires
                            count == 0,
                    ;
                }
            },
            _ => {},
        }
    }
}

/// A run from a state in which the bounds hold goes through.
pub proof fn lemma_simulate_fits(
    sim: Sim,
    f: Flow,
    points: int,
    at_turn: int,
    turn: int,
    spent: int,
)
    requires
        sim.wf(),
        products_bounded(sim),
        flow_fits(sim, f),
        0 <= spent,
        flow_mass(f) + spent <= MAX_SUPPLY,
        0 <= points <= MAX_POINTS * spent,
    ensures
        simulate(sim, f, points, at_turn, turn) is Some,
    decreases sim.turns - turn,
{
    if turn < sim.turns {
        let n = sim.connections@.len() as int;
        lemma_pipe_bounded(f.pipes, 0, f.pipes.len() as int);
        lemma_slot_bounded(f.stock, 0, f.stock.len() as int);
        lemma_ingress_fits(sim, f, n);
        lemma_ingress_conserves(sim, f, n);
        let g = ingress_flow(sim, f, n);
        lemma_egress_conserves(sim, g, n);
        let h = egress_flow(sim, g, n);
        lemma_pipe_bounded(h.pipes, 0, h.pipes.len() as int);
        lemma_produce_fits(sim, h.stock, points, h.stock.len() as int, spent);
        lemma_produce_conserves(sim, h.stock, points, h.stock.len() as int);
        let stock = produce_stock(sim, h.stock, points, h.stock.len() as int);
        let pts = produce_points(sim, h.stock, points, h.stock.len() as int);
        let produced = produce_any(sim, h.stock, points, h.stock.len() as int);
        let gone = used(sim, h.stock, points, h.stock.len() as int);
        if !(quiet(sim, f) && !produced) {
            crate::flow::lemma_produce_shape(sim, h.stock, points, h.stock.len() as int);
            crate::flow::lemma_shape_fits(sim, h.stock, stock, h.pipes);
            lemma_simulate_fits(
                sim,
                Flow { stock, pipes: h.pipes },
                pts,
                if produced {
                    turn + 1
                } else {
                    at_turn
                },
                turn + 1,
                spent + gone,
            );
        }
    }
}

/// At the start nothing is on its way.
pub proof fn lemma_initial_pipes(sim: Sim, n: int)
    requires
        0 <= n <= sim.connections@.len(),
    ensures
        pipes_mass(initial_flow(sim).pipes, n) == 0,
    decreases n,
{
    if n > 0 {
        lemma_initial_pipes(sim, n - 1);
        lemma_total(Resources::spec_empty());
    }
}

/// A scene that holds no more and scores no higher than `run_bounded`
/// allows can be run: no count passes what its type can hold.
pub proof fn lemma_run_fits(sim: Sim)
    requires
        sim.wf(),
        run_bounded(sim),
    ensures
        run_model(sim) is Some,
{
    crate::flow::lemma_initial_fits(sim);
    lemma_simulate_fits(sim, initial_flow(sim), 0, 0, 0, 0);
}

/// Whether the scene holds no more and scores no higher than `run_bounded`
/// allows. A scene for which this holds can be run.
pub fn can_run(sim: &Sim) -> (ok: bool)
    requires
        sim.wf(),
    ensures
        ok == run_bounded(*sim),
        ok ==> run_model(*sim) is Some,
{
    let mut t: usize = 0;
    while t < 8
        invariant
            t <= 8,
            forall|u: int|
                0 <= u < t ==> (#[trigger] sim.products.values[u]).points <= MAX_POINTS && (
                sim.products.values[u].resources.total() == 0 ==> sim.products.values[u].points
                    == 0),
        decreases 8 - t,
    {
        let product = sim.products.values[t];
        proof {
            lemma_total(product.resources);
        }
        if product.points > MAX_POINTS {
            return false;
        }
        if product.points > 0 && product.resources.is_empty() {
            return false;
        }
        t += 1;
    }
    let mut supply: u64 = 0;
    let mut i: usize = 0;
    while i < sim.buildings.values.len()
        invariant
            i <= sim.buildings.values@.len(),
            products_bounded(*sim),
            supply <= MAX_SUPPLY,
            supply == stock_mass(initial_flow(*sim).stock, i as int),
            forall|j: int|
                0 <= j < i ==> ((#[trigger] sim.buildings.values@[j]) matches Some(
                    Building::Deposit(d),
                ) ==> d.spec_resources() <= u16::MAX),
        decreases sim.buildings.values@.len() - i,
    {
        proof {
            lemma_total(Resources::spec_empty());
            lemma_slot_bounded(
                initial_flow(*sim).stock,
                i as int,
                initial_flow(*sim).stock.len() as int,
            );
            lemma_mass_grows(initial_flow(*sim).stock, i as int + 1, initial_flow(*sim).stock.len() as int);
        }
        if let Some(Building::Deposit(d)) = sim.buildings.values[i] {
            assert(d.width * d.height <= 255 * 255) by (nonlinear_arith)
                requires
                    d.width <= 255,
                    d.height <= 255,
            ;
            let cells: u64 = d.width as u64 * d.height as u64;
            assert(5 * cells == d.spec_resources()) by (nonlinear_arith)
                requires
                    cells == d.width * d.height,
                    d.spec_resources() == 5 * d.width * d.height,
            ;
            if 5 * cells > MAX_SUPPLY || supply + 5 * cells > MAX_SUPPLY {
                proof {
                    let stock = initial_flow(*sim).stock;
                    let pipes = initial_flow(*sim).pipes;
                    if 5 * cells <= u16::MAX {
                        assert(stock[i as int] == spec_container(sim.buildings.values@[i as int]));
                        assert(stock[i as int] == Some(
                            ResourceContainer::Deposit(d.resource_type, (5 * cells) as u16),
                        ));
                        assert(stock_mass(stock, i as int + 1) == supply + 5 * cells);
                        lemma_pipe_bounded(pipes, 0, pipes.len() as int);
                        assert(flow_mass(initial_flow(*sim)) > MAX_SUPPLY);
                    } else {
                        assert(sim.buildings.values@[i as int] == Some(Building::Deposit(d)));
                        assert(!deposits_fit(sim.buildings.values@));
                    }
                }
                return false;
            }
            supply = supply + 5 * cells;
        }
        i += 1;
    }
    proof {
        lemma_initial_pipes(*sim, sim.connections@.len() as int);
        lemma_run_fits(*sim);
    }
    true
}

/// The slots up to `n` hold no more than the slots up to `m`, for `n`
/// before `m`.
pub proof fn lemma_mass_grows(stock: Seq<Option<ResourceContainer>>, n: int, m: int)
    requires
        0 <= n <= m <= stock.len(),
    ensures
        stock_mass(stock, n) <= stock_mass(stock, m),
    decreases m - n,
{
    if n < m {
        lemma_mass_grows(stock, n, m - 1);
        lemma_slot_bounded(stock, m - 1, m);
        match stock[m - 1] {
            Some(ResourceContainer::Connector(r)) => {
                lemma_total(r);
            },
            Some(ResourceContainer::Factory(_, r)) => {
                lemma_total(r);
            },
            _ => {},
        }
    }
}

} // verus!
