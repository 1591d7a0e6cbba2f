use crate::building::Building;
use crate::conservation::{
    egress_flow, ingress_flow, lemma_egress_conserves, lemma_ingress_conserves, produce_stock,
};
use crate::flow::{
    deposits_fit, egress, flow_fits, ingress, initial_flow, lemma_least_is_least,
    lemma_produce_shape, lemma_shape_fits, lemma_yield_fits, produce, simulate, spec_consume,
    spec_yield, Flow, ResourceContainer, SimRun,
};
use crate::resources::Resources;
use crate::scene::Sim;
use vstd::prelude::*;

verus! {

/// The units of the resource type with slot `t` that a building slot
/// holds.
pub open spec fn held_of(c: Option<ResourceContainer>, t: int) -> int {
    match c {
        Some(ResourceContainer::Deposit(kind, n)) => if kind.spec_slot() == t {
            n as int
        } else {
            0
        },
        Some(ResourceContainer::Connector(r)) => r.amount(t),
        Some(ResourceContainer::Factory(_, r)) => r.amount(t),
        None => 0,
    }
}

/// The units of type `t` that the first `n` building slots hold together.
pub open spec fn stock_of(stock: Seq<Option<ResourceContainer>>, n: int, t: int) -> int
    decreases n,
{
    if n <= 0 {
        0
    } else {
        stock_of(stock, n - 1, t) + held_of(stock[n - 1], t)
    }
}

/// The units of type `t` on their way through the first `n` connections.
pub open spec fn pipes_of(pipes: Seq<Resources>, n: int, t: int) -> int
    decreases n,
{
    if n <= 0 {
        0
    } else {
        pipes_of(pipes, n - 1, t) + pipes[n - 1].amount(t)
    }
}

/// All units of type `t` of a state: what the deposits of that type hold,
/// what the other buildings hold of it, and what is on its way.
pub open spec fn flow_of(f: Flow, t: int) -> int {
    stock_of(f.stock, f.stock.len() as int, t) + pipes_of(f.pipes, f.pipes.len() as int, t)
}

/// The units of type `t` that the factories in the first `n` slots use up
/// in the production phase: for each, the units it makes times what the
/// recipe takes of the type.
pub open spec fn used_of(
    sim: Sim,
    stock: Seq<Option<ResourceContainer>>,
    points: int,
    n: int,
    t: int,
) -> int
    decreases n,
{
    if n <= 0 {
        0
    } else {
        used_of(sim, stock, points, n - 1, t) + match produce(sim, stock, points, n - 1) {
            Some((s, pts, _)) => match s[n - 1] {
                Some(ResourceContainer::Factory(p, held)) => {
                    let product = sim.products.spec_get(p);
                    spec_yield(product, held) * product.resources.amount(t)
                },
                _ => 0,
            },
            None => 0,
        }
    }
}

/// The units of type `t` that the deposits in the first `n` building
/// slots of the scene hold at the start: five for each cell of a deposit
/// of that type.
pub open spec fn deposit_units(sim: Sim, n: int, t: int) -> int
    decreases n,
{
    if n <= 0 {
        0
    } else {
        deposit_units(sim, n - 1, t) + match sim.buildings.values@[n - 1] {
            Some(Building::Deposit(d)) => if d.resource_type.spec_slot() == t {
                d.spec_resources()
            } else {
                0
            },
            _ => 0,
        }
    }
}

/// One round from the state `f` with `points` scored: the ingress phase, the
/// egress phase and the production phase. The result is the state and the
/// points after it, or `None` where a count would pass what its type can
/// hold.
pub open spec fn round(sim: Sim, f: Flow, points: int) -> Option<(Flow, int)> {
    let n = sim.connections@.len() as int;
    match ingress(sim, f, n) {
        None => None,
        Some((g, _)) => {
            let h = egress_flow(sim, g, n);
            match produce(sim, h.stock, points, h.stock.len() as int) {
                None => None,
                Some((stock, pts, _)) => Some((Flow { stock, pipes: h.pipes }, pts)),
            }
        },
    }
}

/// The state and the points after the first `k` rounds of a run of the
/// scene.
pub open spec fn after_rounds(sim: Sim, k: nat) -> Option<(Flow, int)>
    decreases k,
{
    if k == 0 {
        Some((initial_flow(sim), 0))
    } else {
        match after_rounds(sim, (k - 1) as nat) {
            None => None,
            Some((f, points)) => round(sim, f, points),
        }
    }
}

/// The state after the first `k` rounds.
pub open spec fn flow_after(sim: Sim, k: nat) -> Flow {
    match after_rounds(sim, k) {
        Some((f, _)) => f,
        None => initial_flow(sim),
    }
}

/// The points after the first `k` rounds.
pub open spec fn points_after(sim: Sim, k: nat) -> int {
    match after_rounds(sim, k) {
        Some((_, points)) => points,
        None => 0,
    }
}

/// The units of type `t` that the factories use up in the round from the
/// state `f`.
pub open spec fn round_used(sim: Sim, f: Flow, points: int, t: int) -> int {
    let n = sim.connections@.len() as int;
    used_of(sim, egress_flow(sim, ingress_flow(sim, f, n), n).stock, points, f.stock.len() as int, t)
}

/// The units of type `t` that the factories use up in the first `k`
/// rounds of a run.
pub open spec fn consumed(sim: Sim, k: nat, t: int) -> int
    decreases k,
{
    if k == 0 {
        0
    } else {
        consumed(sim, (k - 1) as nat, t) + round_used(
            sim,
            flow_after(sim, (k - 1) as nat),
            points_after(sim, (k - 1) as nat),
            t,
        )
    }
}

/// Replacing what one slot holds changes the units of a type by the
/// difference.
pub proof fn lemma_stock_update_of(
    stock: Seq<Option<ResourceContainer>>,
    i: int,
    c: Option<ResourceContainer>,
    n: int,
    t: int,
)
    requires
        0 <= i < stock.len(),
        0 <= n <= stock.len(),
    ensures
        stock_of(stock.update(i, c), n, t) == stock_of(stock, n, t) + if i < n {
            held_of(c, t) - held_of(stock[i], t)
        } else {
            0
        },
    decreases n,
{
    if n > 0 {
        lemma_stock_update_of(stock, i, c, n - 1, t);
    }
}

/// Replacing what is in one pipe changes the units of a type by the
/// difference.
pub proof fn lemma_pipes_update_of(pipes: Seq<Resources>, i: int, r: Resources, n: int, t: int)
    requires
        0 <= i < pipes.len(),
        0 <= n <= pipes.len(),
    ensures
        pipes_of(pipes.update(i, r), n, t) == pipes_of(pipes, n, t) + if i < n {
            r.amount(t) - pipes[i].amount(t)
        } else {
            0
        },
    decreases n,
{
    if n > 0 {
        lemma_pipes_update_of(pipes, i, r, n - 1, t);
    }
}

/// No state holds less than nothing of a type.
pub proof fn lemma_flow_of_bounds(f: Flow, n: int, m: int, t: int)
    requires
        0 <= n <= f.stock.len(),
        0 <= m <= f.pipes.len(),
        0 <= t < 8,
    ensures
        stock_of(f.stock, n, t) >= 0,
        pipes_of(f.pipes, m, t) >= 0,
    decreases n + m,
{
    if n > 0 {
        lemma_flow_of_bounds(f, n - 1, m, t);
    } else if m > 0 {
        lemma_flow_of_bounds(f, n, m - 1, t);
    }
}

/// No factory uses up less than nothing of a type.
pub proof fn lemma_used_of_bounds(
    sim: Sim,
    stock: Seq<Option<ResourceContainer>>,
    points: int,
    n: int,
    t: int,
)
    requires
        0 <= t < 8,
    ensures
        used_of(sim, stock, points, n, t) >= 0,
    decreases n,
{
    if n > 0 {
        lemma_used_of_bounds(sim, stock, points, n - 1, t);
        match produce(sim, stock, points, n - 1) {
            Some((s, pts, _)) => match s[n - 1] {
                Some(ResourceContainer::Factory(p, held)) => {
                    let product = sim.products.spec_get(p);
                    lemma_least_is_least(held.spec_div(product.resources), 8);
                    assert(spec_yield(product, held) * product.resources.amount(t) >= 0)
                        by (nonlinear_arith)
                        requires
                            spec_yield(product, held) >= 0,
                            product.resources.amount(t) >= 0,
                    ;
                },
                _ => {},
            },
            None => {},
        }
    }
}

/// The ingress phase moves the units of each type and neither makes nor
/// loses any.
pub proof fn lemma_ingress_keeps(sim: Sim, f: Flow, n: int, t: int)
    requires
        sim.wf(),
        flow_fits(sim, f),
        0 <= n <= sim.connections@.len(),
        ingress(sim, f, n) is Some,
        0 <= t < 8,
    ensures
        flow_of(ingress_flow(sim, f, n), t) == flow_of(f, t),
    decreases n,
{
    if n > 0 {
        lemma_ingress_keeps(sim, f, n - 1, t);
        lemma_ingress_conserves(sim, f, n - 1);
        let g = ingress_flow(sim, f, n - 1);
        let h = ingress_flow(sim, f, n);
        let res = g.pipes[n - 1];
        assert(sim.link_ok(sim.connections@[n - 1]));
        let dst = sim.connections@[n - 1].input_id.0 as int;
        let c = g.stock[dst]->0;
        assert(g.stock[dst] is Some);
        assert(c.can_input(res));
        assert(held_of(Some(c.spec_after_input(res)), t) == held_of(Some(c), t) + res.amount(t));
        assert(Resources::spec_empty().amount(t) == 0);
        lemma_stock_update_of(g.stock, dst, Some(c.spec_after_input(res)), g.stock.len() as int, t);
        lemma_pipes_update_of(g.pipes, n - 1, Resources::spec_empty(), g.pipes.len() as int, t);
        assert(h.stock == g.stock.update(dst, Some(c.spec_after_input(res))));
        assert(h.pipes == g.pipes.update(n - 1, Resources::spec_empty()));
    }
}

/// The egress phase, after a pass that has emptied every pipe, moves the
/// units of each type and neither makes nor loses any.
pub proof fn lemma_egress_keeps(sim: Sim, f: Flow, n: int, t: int)
    requires
        sim.wf(),
        flow_fits(sim, f),
        0 <= n <= sim.connections@.len(),
        forall|k: int| 0 <= k < f.pipes.len() ==> #[trigger] f.pipes[k] == Resources::spec_empty(),
        0 <= t < 8,
    ensures
        flow_of(egress_flow(sim, f, n), t) == flow_of(f, t),
    decreases n,
{
    if n > 0 {
        lemma_egress_keeps(sim, f, n - 1, t);
        lemma_egress_conserves(sim, f, n - 1);
        let g = egress_flow(sim, f, n - 1);
        let h = egress_flow(sim, f, n);
        assert(sim.link_ok(sim.connections@[n - 1]));
        let src = sim.connections@[n - 1].output_id.0 as int;
        let c = g.stock[src]->0;
        assert(g.stock[src] is Some);
        assert(g.pipes[n - 1] == Resources::spec_empty());
        assert(Resources::spec_empty().amount(t) == 0);
        assert(held_of(Some(c.spec_after_output()), t) + c.spec_output().amount(t) == held_of(
            Some(c),
            t,
        ));
        lemma_stock_update_of(g.stock, src, Some(c.spec_after_output()), g.stock.len() as int, t);
        lemma_pipes_update_of(g.pipes, n - 1, c.spec_output(), g.pipes.len() as int, t);
        assert(h.stock == g.stock.update(src, Some(c.spec_after_output())));
        assert(h.pipes == g.pipes.update(n - 1, c.spec_output()));
    }
}

/// What the factories hold of a type after the production phase, and what
/// they used up of it, is what they held before.
pub proof fn lemma_produce_keeps(
    sim: Sim,
    stock: Seq<Option<ResourceContainer>>,
    points: int,
    n: int,
    t: int,
)
    requires
        0 <= n <= stock.len(),
        produce(sim, stock, points, n) is Some,
        0 <= t < 8,
    ensures
        ({
            let s = produce_stock(sim, stock, points, n);
            &&& s.len() == stock.len()
            &&& forall|k: int| n <= k < s.len() ==> #[trigger] s[k] == stock[k]
            &&& stock_of(s, stock.len() as int, t) + used_of(sim, stock, points, n, t) == stock_of(
                stock,
                stock.len() as int,
                t,
            )
        }),
    decreases n,
{
    if n > 0 {
        lemma_produce_keeps(sim, stock, points, n - 1, t);
        let before = produce_stock(sim, stock, points, n - 1);
        let after = produce_stock(sim, stock, points, n);
        match before[n - 1] {
            Some(ResourceContainer::Factory(p, held)) => {
                let product = sim.products.spec_get(p);
                let count = spec_yield(product, held);
                if count > 0 {
                    lemma_yield_fits(product, held);
                    let left = spec_consume(product, held, count);
                    let r = product.resources;
                    assert(left.amount(t) == held.amount(t) - count * r.amount(t)) by {
                        assert(r.amount(t) * count == count * r.amount(t)) by (nonlinear_arith);
                    }
                    lemma_stock_update_of(
                        before,
                        n - 1,
                        Some(ResourceContainer::Factory(p, left)),
                        before.len() as int,
                        t,
                    );
                } else {
                    lemma_least_is_least(held.spec_div(product.resources), 8);
                    assert(count * product.resources.amount(t) == 0) by (nonlinear_arith)
                        requires
                            count == 0,
                    ;
                }
            },
            _ => {},
        }
    }
}

/// A round leaves a state that matches the scene, and the units of each
/// type are conserved over it: what the deposits of the type hold, what
/// the other buildings hold of it, what is on its way through the
/// connections and what the factories have used up of it in the round add
/// up to what there was of it before the round.
pub proof fn lemma_round_keeps(sim: Sim, f: Flow, points: int, t: int)
    requires
        sim.wf(),
        flow_fits(sim, f),
        round(sim, f, points) is Some,
        0 <= t < 8,
    ensures
        round(sim, f, points) matches Some((g, _)) && flow_fits(sim, g) && flow_of(g, t)
            + round_used(sim, f, points, t) == flow_of(f, t),
{
    let n = sim.connections@.len() as int;
    lemma_ingress_conserves(sim, f, n);
    lemma_ingress_keeps(sim, f, n, t);
    let g = ingress_flow(sim, f, n);
    lemma_egress_conserves(sim, g, n);
    lemma_egress_keeps(sim, g, n, t);
    let h = egress_flow(sim, g, n);
    lemma_produce_keeps(sim, h.stock, points, h.stock.len() as int, t);
    lemma_produce_shape(sim, h.stock, points, h.stock.len() as int);
    let s = produce_stock(sim, h.stock, points, h.stock.len() as int);
    lemma_shape_fits(sim, h.stock, s, h.pipes);
}

/// At the start of a run the scene holds of each type what its deposits
/// hold, and nothing is on its way.
pub proof fn lemma_start_units(sim: Sim, n: int, m: int, t: int)
    requires
        deposits_fit(sim.buildings.values@),
        0 <= n <= sim.buildings.values@.len(),
        0 <= m <= sim.connections@.len(),
        0 <= t < 8,
    ensures
        stock_of(initial_flow(sim).stock, n, t) == deposit_units(sim, n, t),
        pipes_of(initial_flow(sim).pipes, m, t) == 0,
    decreases n + m,
{
    if n > 0 {
        lemma_start_units(sim, n - 1, m, t);
        assert(Resources::spec_empty().amount(t) == 0);
    } else if m > 0 {
        lemma_start_units(sim, n, m - 1, t);
        assert(Resources::spec_empty().amount(t) == 0);
    }
}

/// Resources are conserved by type over a whole run. After every round,
/// what the deposits of a type hold, what the other buildings hold of it,
/// what is on its way through the connections and what the factories have
/// used up of it so far add up to what the deposits of the type held at
/// the start: five units for each of their cells. So the factories never
/// use up more of a type than the deposits held.
pub proof fn lemma_run_keeps(sim: Sim, k: nat, t: int)
    requires
        sim.wf(),
        deposits_fit(sim.buildings.values@),
        after_rounds(sim, k) is Some,
        0 <= t < 8,
    ensures
        flow_fits(sim, flow_after(sim, k)),
        flow_of(flow_after(sim, k), t) + consumed(sim, k, t) == deposit_units(
            sim,
            sim.buildings.values@.len() as int,
            t,
        ),
        0 <= consumed(sim, k, t) <= deposit_units(sim, sim.buildings.values@.len() as int, t),
    decreases k,
{
    if k == 0 {
        lemma_start_units(
            sim,
            sim.buildings.values@.len() as int,
            sim.connections@.len() as int,
            t,
        );
    } else {
        let j = (k - 1) as nat;
        lemma_run_keeps(sim, j, t);
        let f = flow_after(sim, j);
        let points = points_after(sim, j);
        lemma_round_keeps(sim, f, points, t);
        let n = sim.connections@.len() as int;
        lemma_used_of_bounds(
            sim,
            egress_flow(sim, ingress_flow(sim, f, n), n).stock,
            points,
            f.stock.len() as int,
            t,
        );
    }
    let g = flow_after(sim, k);
    lemma_flow_of_bounds(g, g.stock.len() as int, g.pipes.len() as int, t);
}

/// A run goes round by round: from the state at the start of a round
/// within the turns, it ends with that round if nothing moved and nothing
/// was produced in it, and else goes on from the state that `round` gives.
pub proof fn lemma_run_goes_by_rounds(sim: Sim, f: Flow, points: int, at_turn: int, turn: int)
    requires
        turn < sim.turns,
    ensures
        match round(sim, f, points) {
            None => simulate(sim, f, points, at_turn, turn) is None,
            Some((g, pts)) => {
                ||| simulate(sim, f, points, at_turn, turn) == Some(
                    SimRun { rounds: turn as u32, points: pts as u32, at_turn: at_turn as u32 },
                )
                ||| simulate(sim, f, points, at_turn, turn) == simulate(
                    sim,
                    g,
                    pts,
                    at_turn,
                    turn + 1,
                )
                ||| simulate(sim, f, points, at_turn, turn) == simulate(
                    sim,
                    g,
                    pts,
                    turn + 1,
                    turn + 1,
                )
            },
        },
{
}

/// The points after the production phase are no less than before, and fit
/// in 32 bits if they did before.
pub proof fn lemma_points_fit(
    sim: Sim,
    stock: Seq<Option<ResourceContainer>>,
    points: int,
    n: int,
)
    requires
        0 <= points <= u32::MAX,
        produce(sim, stock, points, n) is Some,
    ensures
        produce(sim, stock, points, n) matches Some((_, pts, _)) && points <= pts <= u32::MAX,
    decreases n,
{
    if n > 0 {
        lemma_points_fit(sim, stock, points, n - 1);
        match produce(sim, stock, points, n - 1) {
            Some((s, pts, _)) => match s[n - 1] {
                Some(ResourceContainer::Factory(p, held)) => {
                    let product = sim.products.spec_get(p);
                    let count = spec_yield(product, held);
                    if count > 0 {
                        assert(product.points * count >= 0) by (nonlinear_arith)
                            requires
                                product.points >= 0,
                                count > 0,
                        ;
                    }
                },
                _ => {},
            },
            None => {},
        }
    }
}

/// The points of a run are the points after one of its rounds: a run
/// from the state after `turn` rounds ends after that many rounds or more,
/// with the points scored by then.
pub proof fn lemma_run_ends_at_a_round(sim: Sim, f: Flow, points: int, at_turn: int, turn: nat)
    requires
        after_rounds(sim, turn) == Some((f, points)),
        0 <= points <= u32::MAX,
        simulate(sim, f, points, at_turn, turn as int) is Some,
    ensures
        exists|k: nat|
            turn <= k && (#[trigger] after_rounds(sim, k)) is Some && points_after(sim, k)
                == simulate(sim, f, points, at_turn, turn as int)->0.points,
    decreases sim.turns - turn,
{
    if turn >= sim.turns {
        assert(after_rounds(sim, turn) is Some && points_after(sim, turn) == points);
    } else {
        let n = sim.connections@.len() as int;
        let g = ingress_flow(sim, f, n);
        let (h, quiet_out) = egress(sim, g, n);
        lemma_points_fit(sim, h.stock, points, h.stock.len() as int);
        let next = round(sim, f, points);
        assert(after_rounds(sim, turn + 1) == next);
        match next {
            Some((state, pts)) => {
                let run = simulate(sim, f, points, at_turn, turn as int);
                let then = turn as int + 1;
                if run == simulate(sim, state, pts, at_turn, then) {
                    lemma_run_ends_at_a_round(sim, state, pts, at_turn, turn + 1);
                } else if run == simulate(sim, state, pts, then, then) {
                    lemma_run_ends_at_a_round(sim, state, pts, then, turn + 1);
                } else {
                    assert(after_rounds(sim, turn + 1) is Some && points_after(sim, turn + 1)
                        == pts);
                }
            },
            None => {},
        }
    }
}

} // verus!
