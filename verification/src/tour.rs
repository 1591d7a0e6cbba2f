use crate::building::{Building, Deposit, Factory};
use crate::connect::MAX_NON_IMPROVEMENTS;
use crate::distance::{is_distance_map, DistanceMap};
use crate::flow::{run_model, SimRun};
use crate::geometry::Id;
use crate::placement::placed;
use crate::scene::Sim;
use crate::search::routed;
use crate::solver_error::Error;
use crate::stats::{deposit_of, FactoryStats, ProductStats};
use crate::tree::ConnectionTree;
use vstd::prelude::*;

verus! {

/// Where the rounds over the deposits stand: the scene that is worked on,
/// the last scene that was run with its outcome, the number of scenes in a
/// row that have not improved on the one before, and the number of
/// deposits of the round at hand that were not connected.
pub struct Tour {
    pub work: Sim,
    pub last: Option<(Sim, SimRun)>,
    pub stale: u32,
    pub errors: int,
}

/// The rounds at the start of a round: no deposit has failed yet.
pub open spec fn reset(a: Tour) -> Tour {
    Tour { work: a.work, last: a.last, stale: a.stale, errors: 0 }
}

/// Deposit `i` in reach of the factory, as the scene holds it.
pub open spec fn deposit_at(
    work: Sim,
    product_stats: ProductStats,
    factory_stats: FactoryStats,
    i: int,
) -> Option<(Id, Deposit)> {
    let idx = factory_stats.deposits_in_reach@[i].idx;
    if idx < product_stats.deposit_stats@.len() {
        let id = product_stats.deposit_stats@[idx as int].id;
        match deposit_of(work, id) {
            Some(d) => Some((id, d)),
            None => None,
        }
    } else {
        None
    }
}

/// What the rounds give when they end: the last scene that was run.
pub open spec fn result_of(last: Option<(Sim, SimRun)>) -> Result<(Sim, SimRun), Error> {
    match last {
        Some(found) => Ok(found),
        None => Err(Error::NoSolution),
    }
}

/// The outcome `run` ranks above that of the last scene, or is the first.
pub open spec fn improves(last: Option<(Sim, SimRun)>, run: SimRun) -> bool {
    match last {
        Some((_, before)) => run.spec_better_than(before),
        None => true,
    }
}

/// There is an outcome, and it does not improve on the last.
pub open spec fn refused(last: Option<(Sim, SimRun)>, outcome: Option<(Sim, SimRun)>) -> bool {
    match outcome {
        Some((_, run)) => !improves(last, run),
        None => false,
    }
}

/// The deposit of `deposit_at`, where there is one.
pub open spec fn deposit_in(
    work: Sim,
    product_stats: ProductStats,
    factory_stats: FactoryStats,
    i: int,
) -> Deposit {
    match deposit_at(work, product_stats, factory_stats, i) {
        Some((_, d)) => d,
        None => arbitrary(),
    }
}

/// Marks a route that was tried and the copy of the scene that was run.
pub open spec fn is_attempt(tree: ConnectionTree, ok: bool, scene: Sim) -> bool {
    true
}

/// What a try at deposit `i` makes of the scene `work`, and its outcome.
///
/// A deposit that the scene does not hold is passed over. Otherwise a
/// route is searched from it to the factory; see `routed`. If one is found,
/// a copy of the scene is run, and the outcome is the copy with its run, if
/// it has one.
#[verifier::opaque]
pub open spec fn attempt(
    work: Sim,
    map: DistanceMap,
    factory_id: Id,
    product_stats: ProductStats,
    factory_stats: FactoryStats,
    depth: u8,
    i: int,
    after: Sim,
    outcome: Option<(Sim, SimRun)>,
) -> bool {
    match deposit_at(work, product_stats, factory_stats, i) {
        None => after == work && outcome is None,
        Some((_, deposit)) => exists|tree: ConnectionTree, ok: bool, scene: Sim|
            {
                &&& #[trigger] is_attempt(tree, ok, scene)
                &&& routed(work, map, factory_id, deposit, depth, after, tree, ok)
                &&& if ok {
                    scene.same_as(after) && outcome == match run_model(scene) {
                        Some(run) => Some((scene, run)),
                        None => None,
                    }
                } else {
                    outcome is None
                }
            },
    }
}

/// Marks what a try made of the scene, and its outcome.
pub open spec fn is_try(after: Sim, outcome: Option<(Sim, SimRun)>) -> bool {
    true
}

/// What a try at deposit `i` makes of the rounds, where they go on after
/// it.
///
/// A scene that was run becomes the last. If it improves on the one
/// before, the count of scenes that have not is set back; otherwise it
/// grows, and stays under the limit. A try without an outcome counts as an
/// error, and the work goes on from a copy of the last scene that was run,
/// if there is one.
#[verifier::opaque]
pub open spec fn tried_on(
    a: Tour,
    map: DistanceMap,
    factory_id: Id,
    product_stats: ProductStats,
    factory_stats: FactoryStats,
    depth: u8,
    i: int,
    b: Tour,
) -> bool {
    exists|after: Sim, outcome: Option<(Sim, SimRun)>|
        {
            &&& #[trigger] is_try(after, outcome)
            &&& attempt(
                a.work,
                map,
                factory_id,
                product_stats,
                factory_stats,
                depth,
                i,
                after,
                outcome,
            )
            &&& match outcome {
                Some((scene, run)) => {
                    &&& b.work == after
                    &&& b.last == outcome
                    &&& b.errors == a.errors
                    &&& if improves(a.last, run) {
                        b.stale == 0
                    } else {
                        b.stale == a.stale + 1 && b.stale < MAX_NON_IMPROVEMENTS
                    }
                },
                None => {
                    &&& b.errors == a.errors + 1
                    &&& b.last == a.last
                    &&& b.stale == a.stale
                    &&& match a.last {
                        Some((scene, _)) => b.work.same_as(scene),
                        None => b.work == after,
                    }
                },
            }
        }
}

/// The try at deposit `i` ends the rounds: its scene was run and does not
/// improve on the one before, and with it the limit of such scenes in a
/// row is reached.
#[verifier::opaque]
pub open spec fn tried_out(
    a: Tour,
    map: DistanceMap,
    factory_id: Id,
    product_stats: ProductStats,
    factory_stats: FactoryStats,
    depth: u8,
    i: int,
) -> bool {
    exists|after: Sim, outcome: Option<(Sim, SimRun)>|
        {
            &&& #[trigger] is_try(after, outcome)
            &&& attempt(
                a.work,
                map,
                factory_id,
                product_stats,
                factory_stats,
                depth,
                i,
                after,
                outcome,
            )
            &&& refused(a.last, outcome)
            &&& a.stale + 1 == MAX_NON_IMPROVEMENTS
        }
}

/// Marks the rounds between two tries.
pub open spec fn is_tour(mid: Tour) -> bool {
    true
}

/// The first `i` deposits of a round were tried, one after the other, and
/// the rounds stand at `at`.
#[verifier::opaque]
pub open spec fn round_tried(
    first: Tour,
    map: DistanceMap,
    factory_id: Id,
    product_stats: ProductStats,
    factory_stats: FactoryStats,
    depth: u8,
    i: int,
    at: Tour,
) -> bool
    decreases i,
{
    if i <= 0 {
        at == first
    } else {
        exists|mid: Tour|
            {
                &&& #[trigger] is_tour(mid)
                &&& round_tried(
                    first,
                    map,
                    factory_id,
                    product_stats,
                    factory_stats,
                    depth,
                    i - 1,
                    mid,
                )
                &&& tried_on(mid, map, factory_id, product_stats, factory_stats, depth, i - 1, at)
            }
    }
}

/// After `n` rounds over all the deposits, in each of which a deposit was
/// connected, the rounds stand at `at`.
#[verifier::opaque]
pub open spec fn rounds_made(
    first: Tour,
    map: DistanceMap,
    factory_id: Id,
    product_stats: ProductStats,
    factory_stats: FactoryStats,
    depth: u8,
    n: int,
    at: Tour,
) -> bool
    decreases n,
{
    if n <= 0 {
        at == first
    } else {
        exists|mid: Tour|
            {
                &&& #[trigger] is_tour(mid)
                &&& rounds_made(
                    first,
                    map,
                    factory_id,
                    product_stats,
                    factory_stats,
                    depth,
                    n - 1,
                    mid,
                )
                &&& round_tried(
                    reset(mid),
                    map,
                    factory_id,
                    product_stats,
                    factory_stats,
                    depth,
                    factory_stats.deposits_in_reach@.len() as int,
                    at,
                )
                &&& at.errors != factory_stats.deposits_in_reach@.len()
            }
    }
}

/// The factory that makes the product of `product_stats` at the position
/// of `factory_stats`.
pub open spec fn factory_of(product_stats: ProductStats, factory_stats: FactoryStats) -> Building {
    Building::Factory(
        Factory { pos: factory_stats.pos, product_type: product_stats.product_type },
    )
}

/// The rounds over the deposits around the factory that stands on `with`
/// under `factory_id` give `res`.
///
/// With no deposit in reach there is no solution. Otherwise whole rounds
/// are made; see `rounds_made`. After as many rounds as the board has
/// cells, and one more, the result is the last scene that was run. Before
/// that the rounds end in a round that connects no deposit, or at a try
/// that reaches the limit of scenes that do not improve; see `tried_out`.
pub open spec fn toured(
    with: Sim,
    map: DistanceMap,
    factory_id: Id,
    product_stats: ProductStats,
    factory_stats: FactoryStats,
    depth: u8,
    res: Result<(Sim, SimRun), Error>,
) -> bool {
    let deposits = factory_stats.deposits_in_reach@.len() as int;
    let rounds = with.board.width * with.board.height + 1;
    if deposits == 0 {
        res == Err::<(Sim, SimRun), Error>(Error::NoSolution)
    } else {
        exists|n: int, at: Tour, i: int, end: Tour|
            {
                &&& #[trigger] is_end(n, at, i, end)
                &&& 0 <= n <= rounds
                &&& rounds_made(
                    Tour { work: with, last: None, stale: 0, errors: 0 },
                    map,
                    factory_id,
                    product_stats,
                    factory_stats,
                    depth,
                    n,
                    at,
                )
                &&& if n == rounds {
                    res == result_of(at.last)
                } else {
                    &&& 0 <= i <= deposits
                    &&& round_tried(
                        reset(at),
                        map,
                        factory_id,
                        product_stats,
                        factory_stats,
                        depth,
                        i,
                        end,
                    )
                    &&& res == result_of(end.last)
                    &&& if i == deposits {
                        end.errors == deposits
                    } else {
                        tried_out(end, map, factory_id, product_stats, factory_stats, depth, i)
                    }
                }
            }
    }
}

/// Marks the round and the try at which the rounds end.
pub open spec fn is_end(n: int, at: Tour, i: int, end: Tour) -> bool {
    true
}

/// Marks the scene with the factory and the distances to it.
pub open spec fn is_base(
    on: Sim,
    with: Sim,
    placing: Result<Id, crate::error::Error>,
    map: DistanceMap,
) -> bool {
    true
}

/// What `connect_deposits_and_factory` returns for the scene `sim`.
///
/// A factory whose cells cannot be held is out of bounds. Otherwise the
/// factory is placed on a copy of the scene, and the error of the
/// placement is that of the search. With the factory placed, the distances
/// to it are mapped and the deposits are connected in rounds; see
/// `toured`.
pub open spec fn connected(
    sim: Sim,
    product_stats: ProductStats,
    factory_stats: FactoryStats,
    depth: u8,
    res: Result<(Sim, SimRun), Error>,
) -> bool {
    let factory = factory_of(product_stats, factory_stats);
    if !factory.spec_representable() {
        res == Err::<(Sim, SimRun), Error>(
            Error::Sim(crate::error::Error::OutOfBounds(factory_stats.pos)),
        )
    } else {
        exists|on: Sim, with: Sim, placing: Result<Id, crate::error::Error>, map: DistanceMap|
            {
                &&& #[trigger] is_base(on, with, placing, map)
                &&& on.same_as(sim)
                &&& placed(on, factory, placing, with)
                &&& match placing {
                    Err(e) => res == Err::<(Sim, SimRun), Error>(Error::Sim(e)),
                    Ok(factory_id) => {
                        &&& is_distance_map(with, factory_stats.pos, 5, 5, map)
                        &&& toured(
                            with,
                            map,
                            factory_id,
                            product_stats,
                            factory_stats,
                            depth,
                            res,
                        )
                    },
                }
            }
    }
}

/// A deposit that the scene does not hold is passed over.
pub proof fn lemma_attempt_none(
    work: Sim,
    map: DistanceMap,
    factory_id: Id,
    product_stats: ProductStats,
    factory_stats: FactoryStats,
    depth: u8,
    i: int,
)
    requires
        deposit_at(work, product_stats, factory_stats, i) is None,
    ensures
        attempt(work, map, factory_id, product_stats, factory_stats, depth, i, work, None),
{
    reveal(attempt);
}

/// A try at a deposit that the scene holds.
pub proof fn lemma_attempt_made(
    work: Sim,
    map: DistanceMap,
    factory_id: Id,
    product_stats: ProductStats,
    factory_stats: FactoryStats,
    depth: u8,
    i: int,
    after: Sim,
    tree: ConnectionTree,
    ok: bool,
    scene: Sim,
    outcome: Option<(Sim, SimRun)>,
)
    requires
        deposit_at(work, product_stats, factory_stats, i) is Some,
        routed(
            work,
            map,
            factory_id,
            deposit_in(work, product_stats, factory_stats, i),
            depth,
            after,
            tree,
            ok,
        ),
        if ok {
            scene.same_as(after) && outcome == match run_model(scene) {
                Some(run) => Some((scene, run)),
                None => None,
            }
        } else {
            outcome is None
        },
    ensures
        attempt(work, map, factory_id, product_stats, factory_stats, depth, i, after, outcome),
{
    reveal(attempt);
    assert(is_attempt(tree, ok, scene));
}

/// A try after which the rounds go on.
pub proof fn lemma_tried_on(
    a: Tour,
    map: DistanceMap,
    factory_id: Id,
    product_stats: ProductStats,
    factory_stats: FactoryStats,
    depth: u8,
    i: int,
    after: Sim,
    outcome: Option<(Sim, SimRun)>,
    b: Tour,
)
    requires
        attempt(a.work, map, factory_id, product_stats, factory_stats, depth, i, after, outcome),
        match outcome {
            Some((scene, run)) => {
                &&& b.work == after
                &&& b.last == outcome
                &&& b.errors == a.errors
                &&& if improves(a.last, run) {
                    b.stale == 0
                } else {
                    b.stale == a.stale + 1 && b.stale < MAX_NON_IMPROVEMENTS
                }
            },
            None => {
                &&& b.errors == a.errors + 1
                &&& b.last == a.last
                &&& b.stale == a.stale
                &&& match a.last {
                    Some((scene, _)) => b.work.same_as(scene),
                    None => b.work == after,
                }
            },
        },
    ensures
        tried_on(a, map, factory_id, product_stats, factory_stats, depth, i, b),
{
    reveal(tried_on);
    assert(is_try(after, outcome));
}

/// A try that ends the rounds.
pub proof fn lemma_tried_out(
    a: Tour,
    map: DistanceMap,
    factory_id: Id,
    product_stats: ProductStats,
    factory_stats: FactoryStats,
    depth: u8,
    i: int,
    after: Sim,
    outcome: Option<(Sim, SimRun)>,
)
    requires
        attempt(a.work, map, factory_id, product_stats, factory_stats, depth, i, after, outcome),
        refused(a.last, outcome),
        a.stale + 1 == MAX_NON_IMPROVEMENTS,
    ensures
        tried_out(a, map, factory_id, product_stats, factory_stats, depth, i),
{
    reveal(tried_out);
    assert(is_try(after, outcome));
}

/// A round in which no deposit was tried yet.
pub proof fn lemma_round_none(
    first: Tour,
    map: DistanceMap,
    factory_id: Id,
    product_stats: ProductStats,
    factory_stats: FactoryStats,
    depth: u8,
)
    ensures
        round_tried(first, map, factory_id, product_stats, factory_stats, depth, 0, first),
{
    reveal(round_tried);
}

/// One more deposit tried in a round.
pub proof fn lemma_round_more(
    first: Tour,
    map: DistanceMap,
    factory_id: Id,
    product_stats: ProductStats,
    factory_stats: FactoryStats,
    depth: u8,
    i: int,
    mid: Tour,
    at: Tour,
)
    requires
        i >= 1,
        round_tried(first, map, factory_id, product_stats, factory_stats, depth, i - 1, mid),
        tried_on(mid, map, factory_id, product_stats, factory_stats, depth, i - 1, at),
    ensures
        round_tried(first, map, factory_id, product_stats, factory_stats, depth, i, at),
{
    reveal(round_tried);
    assert(is_tour(mid));
}

/// No round made yet.
pub proof fn lemma_rounds_none(
    first: Tour,
    map: DistanceMap,
    factory_id: Id,
    product_stats: ProductStats,
    factory_stats: FactoryStats,
    depth: u8,
)
    ensures
        rounds_made(first, map, factory_id, product_stats, factory_stats, depth, 0, first),
{
    reveal(rounds_made);
}

/// One more round made.
pub proof fn lemma_rounds_more(
    first: Tour,
    map: DistanceMap,
    factory_id: Id,
    product_stats: ProductStats,
    factory_stats: FactoryStats,
    depth: u8,
    n: int,
    mid: Tour,
    at: Tour,
)
    requires
        n >= 1,
        rounds_made(first, map, factory_id, product_stats, factory_stats, depth, n - 1, mid),
        round_tried(
            reset(mid),
            map,
            factory_id,
            product_stats,
            factory_stats,
            depth,
            factory_stats.deposits_in_reach@.len() as int,
            at,
        ),
        at.errors != factory_stats.deposits_in_reach@.len(),
    ensures
        rounds_made(first, map, factory_id, product_stats, factory_stats, depth, n, at),
{
    reveal(rounds_made);
    assert(is_tour(mid));
}

/// The rounds, from the round and the try at which they end.
pub proof fn lemma_toured(
    with: Sim,
    map: DistanceMap,
    factory_id: Id,
    product_stats: ProductStats,
    factory_stats: FactoryStats,
    depth: u8,
    n: int,
    at: Tour,
    i: int,
    end: Tour,
    res: Result<(Sim, SimRun), Error>,
)
    requires
        factory_stats.deposits_in_reach@.len() > 0,
        0 <= n <= with.board.width * with.board.height + 1,
        rounds_made(
            Tour { work: with, last: None, stale: 0, errors: 0 },
            map,
            factory_id,
            product_stats,
            factory_stats,
            depth,
            n,
            at,
        ),
        if n == with.board.width * with.board.height + 1 {
            res == result_of(at.last)
        } else {
            &&& 0 <= i <= factory_stats.deposits_in_reach@.len()
            &&& round_tried(
                reset(at),
                map,
                factory_id,
                product_stats,
                factory_stats,
                depth,
                i,
                end,
            )
            &&& res == result_of(end.last)
            &&& if i == factory_stats.deposits_in_reach@.len() {
                end.errors == factory_stats.deposits_in_reach@.len()
            } else {
                tried_out(end, map, factory_id, product_stats, factory_stats, depth, i)
            }
        },
    ensures
        toured(with, map, factory_id, product_stats, factory_stats, depth, res),
{
    assert(is_end(n, at, i, end));
}

/// The search around a factory that was placed, from its rounds.
pub proof fn lemma_connected(
    sim: Sim,
    product_stats: ProductStats,
    factory_stats: FactoryStats,
    depth: u8,
    on: Sim,
    with: Sim,
    placing: Result<Id, crate::error::Error>,
    map: DistanceMap,
    res: Result<(Sim, SimRun), Error>,
)
    requires
        factory_of(product_stats, factory_stats).spec_representable(),
        on.same_as(sim),
        placed(on, factory_of(product_stats, factory_stats), placing, with),
        match placing {
            Err(e) => res == Err::<(Sim, SimRun), Error>(Error::Sim(e)),
            Ok(factory_id) => {
                &&& is_distance_map(with, factory_stats.pos, 5, 5, map)
                &&& toured(with, map, factory_id, product_stats, factory_stats, depth, res)
            },
        },
    ensures
        connected(sim, product_stats, factory_stats, depth, res),
{
    assert(is_base(on, with, placing, map));
}

} // verus!
