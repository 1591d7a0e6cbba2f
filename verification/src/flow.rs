use crate::building::Building;
use crate::resources::{Product, ProductType, ResourceType, Resources};
use crate::scene::{Connection, Sim};
use vstd::prelude::*;

verus! {

/// The outcome of a run: the rounds played, the points scored, and the turn
/// in which a factory last produced (0 if none did).
#[derive(Clone, Copy, Debug, PartialEq, Eq, Structural)]
pub struct SimRun {
    pub rounds: u32,
    pub points: u32,
    pub at_turn: u32,
}

impl SimRun {
    /// This run ranks above `other`: it scores more, or the same no later,
    /// or the same at the same turn in fewer rounds.
    pub open spec fn spec_better_than(self, other: SimRun) -> bool {
        ||| self.points > other.points
        ||| self.points == other.points && self.at_turn < other.at_turn
        ||| self.points == other.points && self.at_turn == other.at_turn && self.rounds
            < other.rounds
    }

    pub fn better_than(&self, other: &SimRun) -> (b: bool)
        ensures
            b == self.spec_better_than(*other),
    {
        if self.points != other.points {
            self.points > other.points
        } else if self.at_turn != other.at_turn {
            self.at_turn < other.at_turn
        } else {
            self.rounds < other.rounds
        }
    }
}

/// What a building holds during a run.
#[derive(Clone, Copy, Debug, PartialEq, Eq)]
pub enum ResourceContainer {
    /// A deposit: its resource type and the units left in it.
    Deposit(ResourceType, u16),
    /// A mine, conveyor or combiner: what passes through.
    Connector(Resources),
    /// A factory: its product and what it has collected.
    Factory(ProductType, Resources),
}

/// Units a deposit gives out per round at most.
pub const DEPOSIT_RATE: u16 = 3;

impl ResourceContainer {
    /// What the container gives out in one round: a deposit up to three
    /// units of its type, a connector all it holds.
    pub open spec fn spec_output(self) -> Resources {
        match self {
            ResourceContainer::Deposit(t, n) => Resources::spec_single(
                t.spec_slot(),
                if n < DEPOSIT_RATE {
                    n
                } else {
                    DEPOSIT_RATE
                },
            ),
            ResourceContainer::Connector(r) => r,
            ResourceContainer::Factory(_, _) => Resources::spec_empty(),
        }
    }

    /// The container after it has given out `spec_output`.
    pub open spec fn spec_after_output(self) -> ResourceContainer {
        match self {
            ResourceContainer::Deposit(t, n) => ResourceContainer::Deposit(
                t,
                if n < DEPOSIT_RATE {
                    0u16
                } else {
                    (n - DEPOSIT_RATE) as u16
                },
            ),
            ResourceContainer::Connector(_) => ResourceContainer::Connector(Resources::spec_empty()),
            ResourceContainer::Factory(_, _) => self,
        }
    }

    /// What the container holds, if it takes resources in.
    pub open spec fn spec_held(self) -> Resources {
        match self {
            ResourceContainer::Deposit(_, _) => Resources::spec_empty(),
            ResourceContainer::Connector(r) => r,
            ResourceContainer::Factory(_, r) => r,
        }
    }

    /// The container takes `res` in: it is no deposit and the sum fits.
    pub open spec fn can_input(self, res: Resources) -> bool {
        !(self is Deposit) && self.spec_held().can_add(res)
    }

    /// The container after it has taken `res` in.
    pub open spec fn spec_after_input(self, res: Resources) -> ResourceContainer {
        match self {
            ResourceContainer::Deposit(_, _) => self,
            ResourceContainer::Connector(r) => ResourceContainer::Connector(r.spec_add(res)),
            ResourceContainer::Factory(t, r) => ResourceContainer::Factory(t, r.spec_add(res)),
        }
    }

    /// Gives out what leaves the container in one round. A factory gives
    /// nothing out: it must not be asked.
    pub fn output_resources(&mut self) -> (res: Resources)
        requires
            !(*old(self) is Factory),
        ensures
            res == old(self).spec_output(),
            *final(self) == old(self).spec_after_output(),
    {
        match *self {
            ResourceContainer::Deposit(t, n) => {
                let num: u16 = if n < DEPOSIT_RATE {
                    n
                } else {
                    DEPOSIT_RATE
                };
                *self = ResourceContainer::Deposit(t, n - num);
                Resources::single(t, num)
            },
            ResourceContainer::Connector(r) => {
                *self = ResourceContainer::Connector(Resources::default());
                r
            },
            ResourceContainer::Factory(_, _) => Resources::default(),
        }
    }

    /// Takes `res` in. A deposit takes nothing in: it must not be asked.
    pub fn input_resources(&mut self, res: Resources)
        requires
            old(self).can_input(res),
        ensures
            *final(self) == old(self).spec_after_input(res),
    {
        match *self {
            ResourceContainer::Deposit(_, _) => {},
            ResourceContainer::Connector(r) => {
                *self = ResourceContainer::Connector(r.add(&res));
            },
            ResourceContainer::Factory(t, r) => {
                *self = ResourceContainer::Factory(t, r.add(&res));
            },
        }
    }
}

/// The state of a run between two phases: what each building slot holds
/// and what is on its way through each connection.
pub struct Flow {
    pub stock: Seq<Option<ResourceContainer>>,
    pub pipes: Seq<Resources>,
}

/// The container a building starts with; an obstacle has none.
pub open spec fn spec_container(b: Option<Building>) -> Option<ResourceContainer> {
    match b {
        Some(Building::Deposit(d)) => Some(
            ResourceContainer::Deposit(d.resource_type, d.spec_resources() as u16),
        ),
        Some(Building::Mine(_)) | Some(Building::Conveyor(_)) | Some(Building::Combiner(_)) => Some(
            ResourceContainer::Connector(Resources::spec_empty()),
        ),
        Some(Building::Factory(f)) => Some(
            ResourceContainer::Factory(f.product_type, Resources::spec_empty()),
        ),
        _ => None,
    }
}

/// The units of every deposit fit in 16 bits.
pub open spec fn deposits_fit(s: Seq<Option<Building>>) -> bool {
    forall|i: int|
        0 <= i < s.len() ==> ((#[trigger] s[i]) matches Some(Building::Deposit(d))
            ==> d.spec_resources() <= u16::MAX)
}

/// The state at the start of a run: full deposits, everything else empty.
pub open spec fn initial_flow(sim: Sim) -> Flow {
    Flow {
        stock: Seq::new(
            sim.buildings.values@.len(),
            |i: int| spec_container(sim.buildings.values@[i]),
        ),
        pipes: Seq::new(sim.connections@.len(), |i: int| Resources::spec_empty()),
    }
}

/// The flow matches the scene: one slot per building slot, holding a
/// container where resources can pass, and one pipe per connection.
pub open spec fn flow_fits(sim: Sim, f: Flow) -> bool {
    &&& f.stock.len() == sim.buildings.values@.len()
    &&& f.pipes.len() == sim.connections@.len()
    &&& forall|i: int|
        0 <= i < f.stock.len() ==> match sim.buildings.values@[i] {
            Some(Building::Deposit(_)) => (#[trigger] f.stock[i]) matches Some(
                ResourceContainer::Deposit(_, _),
            ),
            Some(Building::Factory(b)) => f.stock[i] matches Some(
                ResourceContainer::Factory(t, _),
            ) && t == b.product_type,
            Some(Building::Obstacle(_)) => f.stock[i] is None,
            Some(_) => f.stock[i] matches Some(ResourceContainer::Connector(_)),
            None => f.stock[i] is None,
        }
}

/// The ingress phase over the first `n` connections, in order: what is in
/// each pipe moves into the building at its end. The flag says that every
/// pipe was empty. `None` if a building would hold more than fits.
pub open spec fn ingress(sim: Sim, f: Flow, n: int) -> Option<(Flow, bool)>
    decreases n,
{
    if n <= 0 {
        Some((f, true))
    } else {
        match ingress(sim, f, n - 1) {
            None => None,
            Some((g, quiet)) => {
                let res = g.pipes[n - 1];
                let dst = sim.connections@[n - 1].input_id.0 as int;
                let c = g.stock[dst]->0;
                if c.can_input(res) {
                    Some(
                        (
                            Flow {
                                stock: g.stock.update(dst, Some(c.spec_after_input(res))),
                                pipes: g.pipes.update(n - 1, Resources::spec_empty()),
                            },
                            quiet && res.spec_is_empty(),
                        ),
                    )
                } else {
                    None
                }
            },
        }
    }
}

/// The egress phase over the first `n` connections, in order: each pipe is
/// filled with what the building at its start gives out. The flag says that
/// nothing was given out.
pub open spec fn egress(sim: Sim, f: Flow, n: int) -> (Flow, bool)
    decreases n,
{
    if n <= 0 {
        (f, true)
    } else {
        let (g, quiet) = egress(sim, f, n - 1);
        let src = sim.connections@[n - 1].output_id.0 as int;
        let c = g.stock[src]->0;
        (
            Flow {
                stock: g.stock.update(src, Some(c.spec_after_output())),
                pipes: g.pipes.update(n - 1, c.spec_output()),
            },
            quiet && c.spec_output().spec_is_empty(),
        )
    }
}

/// How many units of `product` a factory makes from `held`: as many as the
/// scarcest required resource allows, a resource that is not required
/// setting no limit.
pub open spec fn spec_yield(product: Product, held: Resources) -> int {
    if held.spec_has_at_least(product.resources) {
        held.spec_div(product.resources).spec_min()
    } else {
        0
    }
}

/// What is left of `held` after `count` units of `product` were made.
pub open spec fn spec_consume(product: Product, held: Resources, count: int) -> Resources {
    held.spec_saturating_sub(product.resources.spec_mul(Resources::from_fn(|i: int| count as u16)))
}

/// The production phase over the first `n` building slots, in order: each
/// factory makes what it can. The result is the stock, the points after
/// it, and whether any factory produced. `None` if the points would not fit
/// in 32 bits.
pub open spec fn produce(sim: Sim, stock: Seq<Option<ResourceContainer>>, points: int, n: int)
    -> Option<(Seq<Option<ResourceContainer>>, int, bool)>
    decreases n,
{
    if n <= 0 {
        Some((stock, points, false))
    } else {
        match produce(sim, stock, points, n - 1) {
            None => None,
            Some((s, pts, produced)) => match s[n - 1] {
                Some(ResourceContainer::Factory(t, held)) => {
                    let product = sim.products.spec_get(t);
                    let count = spec_yield(product, held);
                    if count > 0 {
                        if pts + product.points * count <= u32::MAX {
                            Some(
                                (
                                    s.update(
                                        n - 1,
                                        Some(
                                            ResourceContainer::Factory(
                                                t,
                                                spec_consume(product, held, count),
                                            ),
                                        ),
                                    ),
                                    pts + product.points * count,
                                    true,
                                ),
                            )
                        } else {
                            None
                        }
                    } else {
                        Some((s, pts, produced))
                    }
                },
                _ => Some((s, pts, produced)),
            },
        }
    }
}

/// The run from the state `f` at the start of round `turn` on, with
/// `points` scored so far and `at_turn` the turn of the last production.
///
/// A round is the ingress phase, the egress phase and the production phase.
/// The run ends when the turns are used up, or with the first round in
/// which nothing moved and nothing was produced, which is not counted.
pub open spec fn simulate(sim: Sim, f: Flow, points: int, at_turn: int, turn: int) -> Option<
    SimRun,
>
    decreases sim.turns - turn,
{
    if turn >= sim.turns {
        Some(SimRun { rounds: turn as u32, points: points as u32, at_turn: at_turn as u32 })
    } else {
        match ingress(sim, f, sim.connections@.len() as int) {
            None => None,
            Some((g, quiet_in)) => {
                let (h, quiet_out) = egress(sim, g, sim.connections@.len() as int);
                match produce(sim, h.stock, points, h.stock.len() as int) {
                    None => None,
                    Some((stock, pts, produced)) => if quiet_in && quiet_out && !produced {
                        Some(
                            SimRun {
                                rounds: turn as u32,
                                points: pts as u32,
                                at_turn: at_turn as u32,
                            },
                        )
                    } else {
                        simulate(
                            sim,
                            Flow { stock, pipes: h.pipes },
                            pts,
                            if produced {
                                turn + 1
                            } else {
                                at_turn
                            },
                            turn + 1,
                        )
                    },
                }
            },
        }
    }
}

/// The outcome of running the scene, or `None` if a deposit holds more than
/// 16 bits can count, a building would, or the points exceed 32 bits.
pub open spec fn run_model(sim: Sim) -> Option<SimRun> {
    if deposits_fit(sim.buildings.values@) {
        simulate(sim, initial_flow(sim), 0, 0, 0)
    } else {
        None
    }
}

/// The containers that the buildings of `sim` start with, or `None` if a
/// deposit holds more than 16 bits can count.
fn initial_stock(sim: &Sim) -> (r: Option<Vec<Option<ResourceContainer>>>)
    ensures
        r is Some <==> deposits_fit(sim.buildings.values@),
        r is Some ==> r->0@ == initial_flow(*sim).stock,
{
    let mut stock: Vec<Option<ResourceContainer>> = Vec::new();
    let mut i: usize = 0;
    while i < sim.buildings.values.len()
        invariant
            i <= sim.buildings.values@.len(),
            stock@.len() == i,
            forall|j: int| 0 <= j < i ==> #[trigger] stock@[j] == spec_container(sim.buildings.values@[j]),
            forall|j: int|
                0 <= j < i ==> ((#[trigger] sim.buildings.values@[j]) matches Some(
                    Building::Deposit(d),
                ) ==> d.spec_resources() <= u16::MAX),
        decreases sim.buildings.values@.len() - i,
    {
        let c = match sim.buildings.values[i] {
            Some(Building::Deposit(d)) => {
                assert(d.width * d.height <= 255 * 255) by (nonlinear_arith)
                    requires
                        d.width <= 255,
                        d.height <= 255,
                ;
                let cells: u32 = d.width as u32 * d.height as u32;
                assert(5 * cells == d.spec_resources()) by (nonlinear_arith)
                    requires
                        cells == d.width * d.height,
                        d.spec_resources() == 5 * d.width * d.height,
                ;
                if 5 * cells > 0xFFFF {
                    return None;
                }
                Some(ResourceContainer::Deposit(d.resource_type, (5 * cells) as u16))
            },
            Some(Building::Mine(_)) | Some(Building::Conveyor(_)) | Some(Building::Combiner(_)) => {
                Some(ResourceContainer::Connector(Resources::default()))
            },
            Some(Building::Factory(f)) => Some(
                ResourceContainer::Factory(f.product_type, Resources::default()),
            ),
            _ => None,
        };
        stock.push(c);
        i += 1;
    }
    assert(stock@ =~= initial_flow(*sim).stock);
    Some(stock)
}

/// One empty pipe per connection.
fn initial_pipes(sim: &Sim) -> (pipes: Vec<Resources>)
    ensures
        pipes@ == initial_flow(*sim).pipes,
{
    let mut pipes: Vec<Resources> = Vec::new();
    let mut i: usize = 0;
    while i < sim.connections.len()
        invariant
            i <= sim.connections@.len(),
            pipes@.len() == i,
            forall|j: int| 0 <= j < i ==> #[trigger] pipes@[j] == Resources::spec_empty(),
        decreases sim.connections@.len() - i,
    {
        pipes.push(Resources::default());
        i += 1;
    }
    assert(pipes@ =~= initial_flow(*sim).pipes);
    pipes
}

/// In a consistent scene the start state matches the scene.
pub proof fn lemma_initial_fits(sim: Sim)
    ensures
        flow_fits(sim, initial_flow(sim)),
{
}

/// The ingress phase; see `ingress`.
fn ingress_phase(
    sim: &Sim,
    stock: &mut Vec<Option<ResourceContainer>>,
    pipes: &mut Vec<Resources>,
) -> (r: Option<bool>)
    requires
        sim.wf(),
        flow_fits(*sim, Flow { stock: old(stock)@, pipes: old(pipes)@ }),
    ensures
        match ingress(
            *sim,
            Flow { stock: old(stock)@, pipes: old(pipes)@ },
            sim.connections@.len() as int,
        ) {
            None => r is None,
            Some((g, quiet)) => r == Some(quiet) && g.stock == final(stock)@ && g.pipes == final(pipes)@ && flow_fits(*sim, g),
        },
{
    let ghost start = Flow { stock: stock@, pipes: pipes@ };
    let mut quiet = true;
    let mut i: usize = 0;
    while i < sim.connections.len()
        invariant
            i <= sim.connections@.len(),
            sim.wf(),
            start == (Flow { stock: old(stock)@, pipes: old(pipes)@ }),
            flow_fits(*sim, Flow { stock: stock@, pipes: pipes@ }),
            ingress(*sim, start, i as int) == Some((Flow { stock: stock@, pipes: pipes@ }, quiet)),
        decreases sim.connections@.len() - i,
    {
        let con = sim.connections[i];
        proof {
            assert(sim.link_ok(sim.connections@[i as int]));
        }
        let dst = con.input_id.0 as usize;
        let res = pipes[i];
        let ghost before = Flow { stock: stock@, pipes: pipes@ };
        let c = stock[dst].unwrap();
        let held = match c {
            ResourceContainer::Connector(r) => r,
            ResourceContainer::Factory(_, r) => r,
            ResourceContainer::Deposit(_, _) => Resources::default(),
        };
        proof {
            assert(!(c is Deposit));
            assert(held == c.spec_held());
            assert(before.stock[dst as int] == Some(c));
        }
        let sum = match held.checked_add(&res) {
            Some(sum) => sum,
            None => {
                proof {
                    assert(!c.can_input(res));
                    assert(ingress(*sim, start, i as int + 1) is None);
                    lemma_ingress_stays(*sim, start, i as int + 1, sim.connections@.len() as int);
                }
                return None;
            },
        };
        let after = match c {
            ResourceContainer::Connector(_) => ResourceContainer::Connector(sum),
            ResourceContainer::Factory(t, _) => ResourceContainer::Factory(t, sum),
            ResourceContainer::Deposit(t, n) => ResourceContainer::Deposit(t, n),
        };
        stock[dst] = Some(after);
        pipes[i] = Resources::default();
        quiet = quiet && res.is_empty();
        i += 1;
    }
    Some(quiet)
}

/// Once the ingress phase has failed, it stays failed.
pub proof fn lemma_ingress_stays(sim: Sim, f: Flow, n: int, m: int)
    requires
        0 <= n <= m,
        ingress(sim, f, n) is None,
    ensures
        ingress(sim, f, m) is None,
    decreases m,
{
    if n < m {
        lemma_ingress_stays(sim, f, n, m - 1);
    }
}

/// The egress phase; see `egress`.
fn egress_phase(
    sim: &Sim,
    stock: &mut Vec<Option<ResourceContainer>>,
    pipes: &mut Vec<Resources>,
) -> (quiet: bool)
    requires
        sim.wf(),
        flow_fits(*sim, Flow { stock: old(stock)@, pipes: old(pipes)@ }),
    ensures
        egress(
            *sim,
            Flow { stock: old(stock)@, pipes: old(pipes)@ },
            sim.connections@.len() as int,
        ) == (Flow { stock: final(stock)@, pipes: final(pipes)@ }, quiet),
        flow_fits(*sim, Flow { stock: final(stock)@, pipes: final(pipes)@ }),
{
    let ghost start = Flow { stock: stock@, pipes: pipes@ };
    let mut quiet = true;
    let mut i: usize = 0;
    while i < sim.connections.len()
        invariant
            i <= sim.connections@.len(),
            sim.wf(),
            start == (Flow { stock: old(stock)@, pipes: old(pipes)@ }),
            flow_fits(*sim, Flow { stock: stock@, pipes: pipes@ }),
            egress(*sim, start, i as int) == (Flow { stock: stock@, pipes: pipes@ }, quiet),
        decreases sim.connections@.len() - i,
    {
        let con = sim.connections[i];
        proof {
            assert(sim.link_ok(sim.connections@[i as int]));
        }
        let src = con.output_id.0 as usize;
        let mut c = stock[src].unwrap();
        let out = c.output_resources();
        stock[src] = Some(c);
        pipes[i] = out;
        quiet = quiet && out.is_empty();
        i += 1;
    }
    quiet
}

/// A factory that holds its recipe can make `spec_yield` units of it
/// without any product of a slot passing the slot's capacity.
pub proof fn lemma_yield_fits(product: Product, held: Resources)
    requires
        held.spec_has_at_least(product.resources),
    ensures
        0 <= spec_yield(product, held) <= u16::MAX,
        forall|i: int|
            0 <= i < 8 ==> product.resources.amount(i) * spec_yield(product, held) <= held.amount(
                i,
            ),
{
    let q = held.spec_div(product.resources);
    lemma_least_is_least(q, 8);
    let count = spec_yield(product, held);
    assert forall|i: int| 0 <= i < 8 implies product.resources.amount(i) * count <= held.amount(
        i,
    ) by {
        let r = product.resources.amount(i);
        let h = held.amount(i);
        assert(count <= q.amount(i));
        if r > 0 {
            assert(r * count <= h) by (nonlinear_arith)
                requires
                    r > 0,
                    0 <= count <= h / r,
                    h >= 0,
            ;
        } else {
            assert(r * count == 0) by (nonlinear_arith)
                requires
                    r == 0,
            ;
        }
    }
}

/// The least of the first `n` amounts is one of them and no larger than any.
pub proof fn lemma_least_is_least(r: Resources, n: int)
    requires
        0 <= n <= 8,
    ensures
        0 <= Resources::least(r, n) <= u16::MAX,
        forall|i: int| 0 <= i < n ==> Resources::least(r, n) <= r.amount(i),
    decreases n,
{
    if n > 0 {
        lemma_least_is_least(r, n - 1);
    }
}

/// The stock `b` holds what `a` holds, but for what the factories have
/// collected.
pub open spec fn same_shape(
    a: Seq<Option<ResourceContainer>>,
    b: Seq<Option<ResourceContainer>>,
) -> bool {
    &&& a.len() == b.len()
    &&& forall|j: int|
        0 <= j < a.len() ==> match #[trigger] a[j] {
            Some(ResourceContainer::Factory(t, _)) => b[j] matches Some(
                ResourceContainer::Factory(u, _),
            ) && u == t,
            other => b[j] == other,
        }
}

/// A stock of the same shape fits the same scene.
pub proof fn lemma_shape_fits(
    sim: Sim,
    a: Seq<Option<ResourceContainer>>,
    b: Seq<Option<ResourceContainer>>,
    pipes: Seq<Resources>,
)
    requires
        flow_fits(sim, Flow { stock: a, pipes }),
        same_shape(a, b),
    ensures
        flow_fits(sim, Flow { stock: b, pipes }),
{
    assert forall|i: int| 0 <= i < b.len() implies match sim.buildings.values@[i] {
        Some(Building::Deposit(_)) => (#[trigger] b[i]) matches Some(
            ResourceContainer::Deposit(_, _),
        ),
        Some(Building::Factory(f)) => b[i] matches Some(ResourceContainer::Factory(t, _)) && t
            == f.product_type,
        Some(Building::Obstacle(_)) => b[i] is None,
        Some(_) => b[i] matches Some(ResourceContainer::Connector(_)),
        None => b[i] is None,
    } by {
        let x = a[i];
    }
}

/// The production phase leaves the stock in the same shape.
pub proof fn lemma_produce_shape(
    sim: Sim,
    stock: Seq<Option<ResourceContainer>>,
    points: int,
    n: int,
)
    requires
        0 <= n <= stock.len(),
        produce(sim, stock, points, n) is Some,
    ensures
        produce(sim, stock, points, n) matches Some((s, _, _)) && same_shape(stock, s),
    decreases n,
{
    if n > 0 {
        lemma_produce_shape(sim, stock, points, n - 1);
    }
}

/// The production phase; see `produce`.
fn production_phase(sim: &Sim, stock: &mut Vec<Option<ResourceContainer>>, points_in: u32) -> (r:
    Option<(u32, bool)>)
    ensures
        final(stock)@.len() == old(stock)@.len(),
        match produce(*sim, old(stock)@, points_in as int, old(stock)@.len() as int) {
            None => r is None,
            Some((s, pts, produced)) => r matches Some((total, any)) && total == pts && any
                == produced && final(stock)@ == s,
        },
        same_shape(old(stock)@, final(stock)@),
{
    let ghost start = stock@;
    let mut points = points_in;
    let ghost first = points;
    let mut produced = false;
    let mut i: usize = 0;
    while i < stock.len()
        invariant
            i <= stock@.len(),
            stock@.len() == start.len(),
            start == old(stock)@,
            first == points_in,
            produce(*sim, start, first as int, i as int) == Some((stock@, points as int, produced)),
            same_shape(start, stock@),
        decreases stock@.len() - i,
    {
        if let Some(ResourceContainer::Factory(t, held)) = stock[i] {
            let product = sim.products.get(t);
            if held.has_at_least(&product.resources) {
                let count = held.div(&product.resources).min();
                if count > 0 {
                    proof {
                        lemma_yield_fits(product, held);
                    }
                    proof {
                        assert(product.points as int * count as int <= 0xFFFF_FFFF * 0xFFFF)
                            by (nonlinear_arith)
                            requires
                                0 <= product.points <= 0xFFFF_FFFF,
                                0 <= count <= 0xFFFF,
                        ;
                    }
                    let total: u64 = points as u64 + product.points as u64 * count as u64;
                    let used = product.resources.mul(&Resources::splat(count));
                    let left = held.saturating_sub(&used);
                    proof {
                        Resources::lemma_equal(left, spec_consume(product, held, count as int));
                    }
                    if total > 0xFFFF_FFFF {
                        proof {
                            assert(produce(*sim, start, first as int, i as int + 1) is None);
                            lemma_produce_stays(
                                *sim,
                                start,
                                first as int,
                                i as int + 1,
                                start.len() as int,
                            );
                        }
                        return None;
                    }
                    stock[i] = Some(ResourceContainer::Factory(t, left));
                    points = total as u32;
                    produced = true;
                }
            }
        }
        i += 1;
    }
    Some((points, produced))
}

/// Once the production phase has failed, it stays failed.
pub proof fn lemma_produce_stays(
    sim: Sim,
    stock: Seq<Option<ResourceContainer>>,
    points: int,
    n: int,
    m: int,
)
    requires
        0 <= n <= m,
        produce(sim, stock, points, n) is None,
    ensures
        produce(sim, stock, points, m) is None,
    decreases m,
{
    if n < m {
        lemma_produce_stays(sim, stock, points, n, m - 1);
    }
}

/// Runs the scene round by round and returns the outcome, or `None` where
/// a count would pass what its type can hold; see `run_model`.
pub fn try_run(sim: &Sim) -> (r: Option<SimRun>)
    requires
        sim.wf(),
    ensures
        r == run_model(*sim),
{
    let mut stock = match initial_stock(sim) {
        Some(stock) => stock,
        None => {
            return None;
        },
    };
    let mut pipes = initial_pipes(sim);
    let mut points: u32 = 0;
    let mut turn: u32 = 0;
    let mut at_turn: u32 = 0;
    proof {
        lemma_initial_fits(*sim);
    }
    while turn < sim.turns
        invariant
            turn <= sim.turns,
            sim.wf(),
            flow_fits(*sim, Flow { stock: stock@, pipes: pipes@ }),
            run_model(*sim) == simulate(
                *sim,
                Flow { stock: stock@, pipes: pipes@ },
                points as int,
                at_turn as int,
                turn as int,
            ),
        decreases sim.turns - turn,
    {
        let quiet_in = match ingress_phase(sim, &mut stock, &mut pipes) {
            Some(q) => q,
            None => {
                return None;
            },
        };
        let quiet_out = egress_phase(sim, &mut stock, &mut pipes);
        let ghost h = Flow { stock: stock@, pipes: pipes@ };
        let produced = match production_phase(sim, &mut stock, points) {
            Some((pts, produced)) => {
                points = pts;
                produced
            },
            None => {
                return None;
            },
        };
        proof {
            lemma_shape_fits(*sim, h.stock, stock@, h.pipes);
        }
        if quiet_in && quiet_out && !produced {
            return Some(SimRun { rounds: turn, points, at_turn });
        }
        if produced {
            at_turn = turn + 1;
        }
        turn += 1;
    }
    Some(SimRun { rounds: turn, points, at_turn })
}

/// Runs the scene round by round and returns the outcome.
///
/// A round moves what is in each connection into the building at its end,
/// then fills each connection with what the building at its start gives
/// out, then lets each factory produce. The run ends after `sim.turns`
/// rounds, or before a round in which nothing moves and nothing is
/// produced.
pub fn run(sim: &Sim) -> (r: SimRun)
    requires
        sim.wf(),
        run_model(*sim) is Some,
    ensures
        Some(r) == run_model(*sim),
{
    try_run(sim).unwrap()
}

} // verus!
