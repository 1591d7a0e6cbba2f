use crate::flow::{
    egress, flow_fits, ingress, lemma_yield_fits, produce, spec_consume, spec_yield, Flow,
    ResourceContainer,
};
use crate::resources::{Product, Resources};
use crate::scene::Sim;
use vstd::prelude::*;

verus! {

/// The units that a building slot holds.
pub open spec fn held_mass(c: Option<ResourceContainer>) -> int {
    match c {
        Some(ResourceContainer::Deposit(_, n)) => n as int,
        Some(ResourceContainer::Connector(r)) => r.total(),
        Some(ResourceContainer::Factory(_, r)) => r.total(),
        None => 0,
    }
}

/// The units that the first `n` building slots hold together.
pub open spec fn stock_mass(stock: Seq<Option<ResourceContainer>>, n: int) -> int
    decreases n,
{
    if n <= 0 {
        0
    } else {
        stock_mass(stock, n - 1) + held_mass(stock[n - 1])
    }
}

/// The units on their way through the first `n` connections.
pub open spec fn pipes_mass(pipes: Seq<Resources>, n: int) -> int
    decreases n,
{
    if n <= 0 {
        0
    } else {
        pipes_mass(pipes, n - 1) + pipes[n - 1].total()
    }
}

/// All units of a state: what the deposits hold, what the other buildings
/// hold, and what is on its way.
pub open spec fn flow_mass(f: Flow) -> int {
    stock_mass(f.stock, f.stock.len() as int) + pipes_mass(f.pipes, f.pipes.len() as int)
}

/// The units that the factories in the first `n` slots use up in the
/// production phase.
pub open spec fn used(sim: Sim, stock: Seq<Option<ResourceContainer>>, points: int, n: int) -> int
    decreases n,
{
    if n <= 0 {
        0
    } else {
        used(sim, stock, points, n - 1) + match produce(sim, stock, points, n - 1) {
            Some((s, pts, _)) => match s[n - 1] {
                Some(ResourceContainer::Factory(t, held)) => {
                    let product = sim.products.spec_get(t);
                    spec_yield(product, held) * product.resources.total()
                },
                _ => 0,
            },
            None => 0,
        }
    }
}

/// The state after the ingress phase over the first `n` connections.
pub open spec fn ingress_flow(sim: Sim, f: Flow, n: int) -> Flow {
    match ingress(sim, f, n) {
        Some((g, _)) => g,
        None => f,
    }
}

/// The state after the egress phase over the first `n` connections.
pub open spec fn egress_flow(sim: Sim, f: Flow, n: int) -> Flow {
    let (g, _) = egress(sim, f, n);
    g
}

/// The stock after the production phase over the first `n` slots.
pub open spec fn produce_stock(
    sim: Sim,
    stock: Seq<Option<ResourceContainer>>,
    points: int,
    n: int,
) -> Seq<Option<ResourceContainer>> {
    match produce(sim, stock, points, n) {
        Some((s, _, _)) => s,
        None => stock,
    }
}

/// The sum of a vector is the sum of its eight amounts.
pub proof fn lemma_total(r: Resources)
    ensures
        r.total() == r.amount(0) + r.amount(1) + r.amount(2) + r.amount(3) + r.amount(4)
            + r.amount(5) + r.amount(6) + r.amount(7),
{
    reveal_with_fuel(Resources::sum_to, 9);
}

/// Adding vectors adds their sums.
pub proof fn lemma_total_add(a: Resources, b: Resources)
    requires
        a.can_add(b),
    ensures
        a.spec_add(b).total() == a.total() + b.total(),
{
    lemma_total(a);
    lemma_total(b);
    lemma_total(a.spec_add(b));
}

/// The empty vector sums to nothing, and a vector with one amount to that
/// amount.
pub proof fn lemma_total_single(slot: int, n: u16)
    requires
        0 <= slot < 8,
    ensures
        Resources::spec_empty().total() == 0,
        Resources::spec_single(slot, n).total() == n,
{
    lemma_total(Resources::spec_empty());
    lemma_total(Resources::spec_single(slot, n));
}

/// Making `count` units uses up `count` times the recipe.
pub proof fn lemma_total_consume(product: Product, held: Resources)
    requires
        held.spec_has_at_least(product.resources),
    ensures
        spec_consume(product, held, spec_yield(product, held)).total() + spec_yield(product, held)
            * product.resources.total() == held.total(),
{
    lemma_yield_fits(product, held);
    let count = spec_yield(product, held);
    let left = spec_consume(product, held, count);
    lemma_total(held);
    lemma_total(product.resources);
    lemma_total(left);
    let r = product.resources;
    assert forall|i: int| 0 <= i < 8 implies left.amount(i) == held.amount(i) - count * r.amount(
        i,
    ) by {
        assert(r.amount(i) * count == count * r.amount(i)) by (nonlinear_arith);
    }
    assert(count * (r.amount(0) + r.amount(1) + r.amount(2) + r.amount(3) + r.amount(4) + r.amount(
        5,
    ) + r.amount(6) + r.amount(7)) == count * r.amount(0) + count * r.amount(1) + count * r.amount(
        2,
    ) + count * r.amount(3) + count * r.amount(4) + count * r.amount(5) + count * r.amount(6)
        + count * r.amount(7)) by (nonlinear_arith);
}

/// Replacing what one slot holds changes the sum by the difference.
pub proof fn lemma_stock_update(
    stock: Seq<Option<ResourceContainer>>,
    i: int,
    c: Option<ResourceContainer>,
    n: int,
)
    requires
        0 <= i < stock.len(),
        0 <= n <= stock.len(),
    ensures
        stock_mass(stock.update(i, c), n) == stock_mass(stock, n) + if i < n {
            held_mass(c) - held_mass(stock[i])
        } else {
            0
        },
    decreases n,
{
    if n > 0 {
        lemma_stock_update(stock, i, c, n - 1);
    }
}

/// Replacing what is in one pipe changes the sum by the difference.
pub proof fn lemma_pipes_update(pipes: Seq<Resources>, i: int, r: Resources, n: int)
    requires
        0 <= i < pipes.len(),
        0 <= n <= pipes.len(),
    ensures
        pipes_mass(pipes.update(i, r), n) == pipes_mass(pipes, n) + if i < n {
            r.total() - pipes[i].total()
        } else {
            0
        },
    decreases n,
{
    if n > 0 {
        lemma_pipes_update(pipes, i, r, n - 1);
    }
}

/// The ingress phase moves units and neither makes nor loses any. The
/// pipes it has emptied are empty, and the others are as they were.
pub proof fn lemma_ingress_conserves(sim: Sim, f: Flow, n: int)
    requires
        sim.wf(),
        flow_fits(sim, f),
        0 <= n <= sim.connections@.len(),
        ingress(sim, f, n) is Some,
    ensures
        ({
            let g = ingress_flow(sim, f, n);
            &&& flow_fits(sim, g)
            &&& flow_mass(g) == flow_mass(f)
            &&& forall|k: int| 0 <= k < n ==> #[trigger] g.pipes[k] == Resources::spec_empty()
            &&& forall|k: int| n <= k < g.pipes.len() ==> #[trigger] g.pipes[k] == f.pipes[k]
        }),
    decreases n,
{
    if n > 0 {
        lemma_ingress_conserves(sim, f, n - 1);
        let g = ingress_flow(sim, f, n - 1);
        let h = ingress_flow(sim, f, n);
        let res = g.pipes[n - 1];
        assert(sim.link_ok(sim.connections@[n - 1]));
        let dst = sim.connections@[n - 1].input_id.0 as int;
        let c = g.stock[dst]->0;
        assert(g.stock[dst] is Some);
        lemma_total_add(c.spec_held(), res);
        lemma_total_single(0, 0);
        lemma_stock_update(g.stock, dst, Some(c.spec_after_input(res)), g.stock.len() as int);
        lemma_pipes_update(g.pipes, n - 1, Resources::spec_empty(), g.pipes.len() as int);
        assert(h.stock == g.stock.update(dst, Some(c.spec_after_input(res))));
        assert(h.pipes == g.pipes.update(n - 1, Resources::spec_empty()));
        assert forall|i: int| 0 <= i < h.stock.len() implies match sim.buildings.values@[i] {
            Some(crate::building::Building::Deposit(_)) => (#[trigger] h.stock[i]) matches Some(
                ResourceContainer::Deposit(_, _),
            ),
            Some(crate::building::Building::Factory(b)) => h.stock[i] matches Some(
                ResourceContainer::Factory(t, _),
            ) && t == b.product_type,
            Some(crate::building::Building::Obstacle(_)) => h.stock[i] is None,
            Some(_) => h.stock[i] matches Some(ResourceContainer::Connector(_)),
            None => h.stock[i] is None,
        } by {
            let x = g.stock[i];
        }
    }
}

/// The egress phase, after a pass that has emptied every pipe, moves units
/// and neither makes nor loses any.
pub proof fn lemma_egress_conserves(sim: Sim, f: Flow, n: int)
    requires
        sim.wf(),
        flow_fits(sim, f),
        0 <= n <= sim.connections@.len(),
        forall|k: int| 0 <= k < f.pipes.len() ==> #[trigger] f.pipes[k] == Resources::spec_empty(),
    ensures
        ({
            let g = egress_flow(sim, f, n);
            &&& flow_fits(sim, g)
            &&& flow_mass(g) == flow_mass(f)
            &&& forall|k: int| n <= k < g.pipes.len() ==> #[trigger] g.pipes[k] == f.pipes[k]
        }),
    decreases n,
{
    if n > 0 {
        lemma_egress_conserves(sim, f, n - 1);
        let g = egress_flow(sim, f, n - 1);
        let h = egress_flow(sim, f, n);
        assert(sim.link_ok(sim.connections@[n - 1]));
        let src = sim.connections@[n - 1].output_id.0 as int;
        let c = g.stock[src]->0;
        assert(g.stock[src] is Some);
        assert(g.pipes[n - 1] == Resources::spec_empty());
        lemma_total_single(0, 0);
        match c {
            ResourceContainer::Deposit(t, m) => {
                lemma_total_single(
                    t.spec_slot(),
                    if m < crate::flow::DEPOSIT_RATE {
                        m
                    } else {
                        crate::flow::DEPOSIT_RATE
                    },
                );
            },
            _ => {},
        }
        lemma_stock_update(g.stock, src, Some(c.spec_after_output()), g.stock.len() as int);
        lemma_pipes_update(g.pipes, n - 1, c.spec_output(), g.pipes.len() as int);
        assert(h.stock == g.stock.update(src, Some(c.spec_after_output())));
        assert(h.pipes == g.pipes.update(n - 1, c.spec_output()));
        assert forall|i: int| 0 <= i < h.stock.len() implies match sim.buildings.values@[i] {
            Some(crate::building::Building::Deposit(_)) => (#[trigger] h.stock[i]) matches Some(
                ResourceContainer::Deposit(_, _),
            ),
            Some(crate::building::Building::Factory(b)) => h.stock[i] matches Some(
                ResourceContainer::Factory(t, _),
            ) && t == b.product_type,
            Some(crate::building::Building::Obstacle(_)) => h.stock[i] is None,
            Some(_) => h.stock[i] matches Some(ResourceContainer::Connector(_)),
            None => h.stock[i] is None,
        } by {
            let x = g.stock[i];
        }
    }
}

/// What the factories hold after the production phase, and what they used
/// up, is what they held before.
pub proof fn lemma_produce_conserves(
    sim: Sim,
    stock: Seq<Option<ResourceContainer>>,
    points: int,
    n: int,
)
    requires
        0 <= n <= stock.len(),
        produce(sim, stock, points, n) is Some,
    ensures
        ({
            let s = produce_stock(sim, stock, points, n);
            &&& s.len() == stock.len()
            &&& forall|k: int| n <= k < s.len() ==> #[trigger] s[k] == stock[k]
            &&& stock_mass(s, stock.len() as int) + used(sim, stock, points, n) == stock_mass(
                stock,
                stock.len() as int,
            )
        }),
    decreases n,
{
    if n > 0 {
        lemma_produce_conserves(sim, stock, points, n - 1);
        let before = produce_stock(sim, stock, points, n - 1);
        let after = produce_stock(sim, stock, points, n);
        match before[n - 1] {
            Some(ResourceContainer::Factory(t, held)) => {
                let product = sim.products.spec_get(t);
                let count = spec_yield(product, held);
                if count > 0 {
                    lemma_total_consume(product, held);
                    lemma_stock_update(
                        before,
                        n - 1,
                        Some(ResourceContainer::Factory(t, spec_consume(product, held, count))),
                        before.len() as int,
                    );
                } else {
                    crate::flow::lemma_least_is_least(held.spec_div(product.resources), 8);
                    assert(count * product.resources.total() == 0) by (nonlinear_arith)
                        requires
                            count == 0,
                    ;
                }
            },
            _ => {},
        }
    }
}

/// Resources are conserved: over one round, what the deposits hold, what
/// the other buildings hold, what is on its way through the connections
/// and what the factories have used up add up to the same number of units
/// as before the round.
pub proof fn lemma_round_conserves(sim: Sim, f: Flow, points: int)
    requires
        sim.wf(),
        flow_fits(sim, f),
        ingress(sim, f, sim.connections@.len() as int) is Some,
        produce(
            sim,
            egress_flow(
                sim,
                ingress_flow(sim, f, sim.connections@.len() as int),
                sim.connections@.len() as int,
            ).stock,
            points,
            f.stock.len() as int,
        ) is Some,
    ensures
        ({
            let n = sim.connections@.len() as int;
            let g = ingress_flow(sim, f, n);
            let h = egress_flow(sim, g, n);
            let s = produce_stock(sim, h.stock, points, f.stock.len() as int);
            flow_mass(Flow { stock: s, pipes: h.pipes }) + used(
                sim,
                h.stock,
                points,
                f.stock.len() as int,
            ) == flow_mass(f)
        }),
{
    let n = sim.connections@.len() as int;
    lemma_ingress_conserves(sim, f, n);
    let g = ingress_flow(sim, f, n);
    lemma_egress_conserves(sim, g, n);
    let h = egress_flow(sim, g, n);
    lemma_produce_conserves(sim, h.stock, points, h.stock.len() as int);
}

} // verus!
