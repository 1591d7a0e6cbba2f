use crate::building::{Building, Buildings};
use crate::connect::{cannot_place, carried, kept, lemma_kept_twice, placed_on, try_place};
use crate::flow::{run_model, try_run, SimRun};
use crate::scene::Sim;
use vstd::prelude::*;

verus! {

/// Compositions that one message may lead to at most.
pub const MAX_COMBINATIONS: usize = 1000;

/// A scene with the outcome of running it.
#[derive(Clone, Debug, PartialEq, Eq)]
pub struct ScoredSolution {
    pub sim: Sim,
    pub run: SimRun,
}

impl ScoredSolution {
    pub fn new(sim: Sim, run: SimRun) -> (s: ScoredSolution)
        ensures
            s.sim == sim,
            s.run == run,
    {
        ScoredSolution { sim, run }
    }

    /// The scene is consistent and `run` is the outcome of running it.
    #[verifier::opaque]
    pub open spec fn wf(self) -> bool {
        self.sim.wf() && run_model(self.sim) == Some(self.run)
    }
}

/// What the search sends to the combiner: a solution of the region with
/// the given index, or the end of the search.
#[derive(Clone, Debug, PartialEq, Eq)]
pub enum CombineMessage {
    Solution(usize, ScoredSolution),
    Done,
}

/// `base` to the power of `exp`.
pub open spec fn power(base: int, exp: nat) -> int
    decreases exp,
{
    if exp == 0 {
        1
    } else {
        base * power(base, (exp - 1) as nat)
    }
}

/// How many solutions of each other region are tried: the largest `n` with
/// `num_regions` to the power of `n` at most `MAX_COMBINATIONS`, and at
/// least 1.
pub open spec fn spec_num_components(num_regions: int, n: int) -> bool {
    &&& n >= 1
    &&& 2 <= num_regions <= MAX_COMBINATIONS ==> power(num_regions, n as nat) <= MAX_COMBINATIONS
        < power(num_regions, (n + 1) as nat)
    &&& !(2 <= num_regions <= MAX_COMBINATIONS) ==> n == 1
}

/// How many solutions of each other region are tried; see
/// `spec_num_components`.
pub fn num_components(num_regions: usize) -> (n: usize)
    ensures
        spec_num_components(num_regions as int, n as int),
{
    if num_regions < 2 || num_regions > MAX_COMBINATIONS {
        return 1;
    }
    let mut n: usize = 1;
    let mut reached: usize = num_regions;
    proof {
        reveal_with_fuel(power, 2);
        assert(power(num_regions as int, 1) == num_regions);
    }
    let limit: usize = MAX_COMBINATIONS / num_regions;
    while reached <= limit
        invariant
            2 <= num_regions <= MAX_COMBINATIONS,
            limit == MAX_COMBINATIONS / num_regions,
            1 <= n <= reached,
            reached == power(num_regions as int, n as nat),
            reached <= MAX_COMBINATIONS,
        decreases MAX_COMBINATIONS - reached,
    {
        proof {
            assert(reached * num_regions > reached && reached * num_regions <= MAX_COMBINATIONS)
                by (nonlinear_arith)
                requires
                    reached >= 1,
                    num_regions >= 2,
                    reached <= MAX_COMBINATIONS / num_regions,
            ;
            assert(power(num_regions as int, (n + 1) as nat) == num_regions * power(
                num_regions as int,
                n as nat,
            ));
            assert(reached * num_regions == num_regions * reached) by (nonlinear_arith);
        }
        reached = reached * num_regions;
        n += 1;
    }
    proof {
        assert(power(num_regions as int, (n + 1) as nat) == num_regions * power(
            num_regions as int,
            n as nat,
        ));
        assert(num_regions * reached > MAX_COMBINATIONS) by (nonlinear_arith)
            requires
                reached > MAX_COMBINATIONS / num_regions,
                num_regions >= 2,
        ;
    }
    n
}

/// The mines, conveyors, combiners and factories among the first `n` slots
/// of a store, in order of identifier.
pub open spec fn solver_buildings(values: Seq<Option<Building>>, n: int) -> Seq<Building>
    decreases n,
{
    if n <= 0 {
        Seq::empty()
    } else {
        let rest = solver_buildings(values, n - 1);
        match values[n - 1] {
            Some(b) => if b is Deposit || b is Obstacle {
                rest
            } else {
                rest.push(b)
            },
            None => rest,
        }
    }
}

/// The buildings among fewer slots come first among those of more slots.
pub proof fn lemma_solver_buildings_grow(values: Seq<Option<Building>>, m: int, n: int)
    requires
        0 <= m <= n,
    ensures
        solver_buildings(values, m).len() <= solver_buildings(values, n).len(),
        forall|i: int|
            0 <= i < solver_buildings(values, m).len() ==> solver_buildings(values, n)[i]
                == solver_buildings(values, m)[i],
    decreases n - m,
{
    if m < n {
        lemma_solver_buildings_grow(values, m, n - 1);
    }
}

/// The first `k` buildings of `list` were placed one after the other:
/// `steps[0]` is the scene `start`, and `steps[i + 1]` is `steps[i]` with
/// building `i` placed on it.
pub open spec fn all_added(start: Sim, list: Seq<Building>, steps: Seq<Sim>, k: int) -> bool {
    &&& steps.len() == k + 1
    &&& steps[0] == start
    &&& forall|i: int| 0 <= i < k ==> placed_on(#[trigger] steps[i], list[i], steps[i + 1])
}

/// What `add_solution_buildings` makes of the scene `old`: the mines,
/// conveyors, combiners and factories of `buildings` are placed on it one
/// after the other, in order of identifier. If all can be placed, the
/// result is `true` and `new` is the scene with all of them. Otherwise the
/// result is `false` and `new` holds those before the first that cannot be
/// placed.
#[verifier::opaque]
pub open spec fn solution_added(
    old: Sim,
    buildings: Seq<Option<Building>>,
    ok: bool,
    new: Sim,
) -> bool {
    let list = solver_buildings(buildings, buildings.len() as int);
    exists|steps: Seq<Sim>, k: int|
        {
            &&& 0 <= k <= list.len()
            &&& #[trigger] all_added(old, list, steps, k)
            &&& if ok {
                k == list.len() && new == steps[k]
            } else {
                k < list.len() && cannot_place(steps[k], list[k]) && new.same_as(steps[k])
            }
        }
}

/// Adds the mines, conveyors, combiners and factories of `buildings` to
/// `sim`, in order of identifier. Returns whether all of them could be
/// placed; where one cannot, the scene holds those before it.
pub fn add_solution_buildings(sim: &mut Sim, buildings: &Buildings) -> (ok: bool)
    requires
        old(sim).wf(),
    ensures
        final(sim).wf(),
        carried(*old(sim), *final(sim)),
        kept(old(sim).buildings, final(sim).buildings),
        solution_added(*old(sim), buildings.values@, ok, *final(sim)),
{
    let ghost list = solver_buildings(buildings.values@, buildings.values@.len() as int);
    let ghost mut steps: Seq<Sim> = seq![*sim];
    let mut i: usize = 0;
    while i < buildings.values.len()
        invariant
            i <= buildings.values@.len(),
            sim.wf(),
            carried(*old(sim), *sim),
            kept(old(sim).buildings, sim.buildings),
            list == solver_buildings(buildings.values@, buildings.values@.len() as int),
            steps.len() == solver_buildings(buildings.values@, i as int).len() + 1,
            steps[0] == *old(sim),
            steps[steps.len() - 1] == *sim,
            forall|j: int|
                0 <= j < steps.len() - 1 ==> placed_on(
                    #[trigger] steps[j],
                    solver_buildings(buildings.values@, i as int)[j],
                    steps[j + 1],
                ),
        decreases buildings.values@.len() - i,
    {
        let ghost so_far = solver_buildings(buildings.values@, i as int);
        if let Some(b) = buildings.values[i] {
            match b {
                Building::Deposit(_) | Building::Obstacle(_) => {},
                _ => {
                    let ghost before = *sim;
                    let placed = try_place(sim, b);
                    proof {
                        assert(kept(before.buildings, sim.buildings));
                        lemma_kept_twice(old(sim).buildings, before.buildings, sim.buildings);
                        lemma_solver_buildings_grow(
                            buildings.values@,
                            i as int + 1,
                            buildings.values@.len() as int,
                        );
                        assert(solver_buildings(buildings.values@, i as int + 1) == so_far.push(b));
                        assert forall|j: int| 0 <= j < steps.len() - 1 implies placed_on(
                            #[trigger] steps[j],
                            list[j],
                            steps[j + 1],
                        ) by {
                            assert(so_far.push(b)[j] == so_far[j]);
                        }
                    }
                    if placed.is_none() {
                        proof {
                            let k = steps.len() - 1;
                            assert(list[k] == b);
                            assert(all_added(*old(sim), list, steps, k));
                            reveal(solution_added);
                        }
                        return false;
                    }
                    proof {
                        let next = steps.push(*sim);
                        assert forall|j: int| 0 <= j < next.len() - 1 implies placed_on(
                            #[trigger] next[j],
                            so_far.push(b)[j],
                            next[j + 1],
                        ) by {
                            if j < steps.len() - 1 {
                                assert(next[j] == steps[j] && next[j + 1] == steps[j + 1]);
                                assert(placed_on(steps[j], so_far[j], steps[j + 1]));
                            } else {
                                assert(next[j] == before);
                            }
                        }
                        steps = next;
                    }
                },
            }
        }
        i += 1;
    }
    proof {
        assert(all_added(*old(sim), list, steps, list.len() as int));
        reveal(solution_added);
    }
    true
}

/// `new` is the better of `old` and the scene `sim` with its outcome `run`:
/// the scene, where it ranks above `old` or there is no `old`, and `old`
/// otherwise.
pub open spec fn is_best_of(
    old: Option<ScoredSolution>,
    sim: Sim,
    run: SimRun,
    new: Option<ScoredSolution>,
) -> bool {
    match (old, new) {
        (_, None) => false,
        (None, Some(b)) => b.run == run && b.sim.same_as(sim),
        (Some(o), Some(b)) => if run.spec_better_than(o.run) {
            b.run == run && b.sim.same_as(sim)
        } else {
            b == o
        },
    }
}

/// Makes the scene `sim` with its outcome `run` the best solution where it
/// ranks above the best so far, or where there is none yet.
pub fn keep_best(best: &mut Option<ScoredSolution>, sim: &Sim, run: SimRun)
    requires
        sim.wf(),
        run_model(*sim) == Some(run),
        *old(best) matches Some(b) ==> b.wf(),
    ensures
        is_best_of(*old(best), *sim, run, *final(best)),
        *final(best) matches Some(b) ==> b.wf(),
{
    let better = match best {
        None => true,
        Some(b) => run.better_than(&b.run),
    };
    if better {
        let copy = sim.duplicate();
        proof {
            reveal(ScoredSolution::wf);
            crate::theorems::lemma_run_same(*sim, copy);
        }
        *best = Some(ScoredSolution::new(copy, run));
    }
}

/// Every solution is as `ScoredSolution::wf` says.
pub open spec fn all_wf(solutions: Seq<Vec<ScoredSolution>>) -> bool {
    forall|k: int, i: int|
        0 <= k < solutions.len() && 0 <= i < solutions[k]@.len() ==> (
        #[trigger] solutions[k]@[i]).wf()
}

/// The best never ranks lower than before.
pub open spec fn not_worse(old: Option<ScoredSolution>, new: Option<ScoredSolution>) -> bool {
    old matches Some(o) ==> new matches Some(n) && !o.run.spec_better_than(n.run)
}

/// The region that is visited first from `from` on: `from`, or the next
/// if `from` is the region `skip` that is left out.
pub open spec fn region_from(from: int, skip: int, regions: int) -> int {
    if from == skip && from < regions {
        from + 1
    } else {
        from
    }
}

/// How many solutions of a region with `have` solutions are tried.
pub open spec fn tried_of(num_components: int, have: int) -> int {
    if num_components < have {
        num_components
    } else {
        have
    }
}

/// What `recursive_permutations` makes of the best solution `old_best`.
///
/// From region `from` on the regions are visited in order, the region
/// `skip` left out. Behind the last region the scene is run, and it becomes
/// the best where it ranks above the best so far; a scene that cannot be
/// run leaves the best as it is. At a region, its highest ranking
/// solutions are taken in turn, the highest first, as many as
/// `num_components` allows; see `composed_with`. `bests` holds the best
/// before and after each of them.
pub open spec fn composed(
    sim: Sim,
    lists: Seq<Vec<ScoredSolution>>,
    skip: int,
    from: int,
    num_components: int,
    old_best: Option<ScoredSolution>,
    new_best: Option<ScoredSolution>,
) -> bool
    decreases lists.len() - from, 2int, 0int, 0int,
{
    let r = region_from(from, skip, lists.len() as int);
    if r < 0 {
        false
    } else if r >= lists.len() {
        match run_model(sim) {
            Some(run) => is_best_of(old_best, sim, run, new_best),
            None => new_best == old_best,
        }
    } else {
        composed_taking(
            sim,
            lists,
            skip,
            r,
            num_components,
            tried_of(num_components, lists[r]@.len() as int),
            old_best,
            new_best,
        )
    }
}

/// Marks the best solution between two steps of a composition.
pub open spec fn is_between(best: Option<ScoredSolution>) -> bool {
    true
}

/// What the solutions taken before the one at hand have made of the best
/// solution; see `composed_taking`.
#[verifier::opaque]
pub open spec fn composed_so_far(
    sim: Sim,
    lists: Seq<Vec<ScoredSolution>>,
    skip: int,
    r: int,
    num_components: int,
    taken: int,
    old_best: Option<ScoredSolution>,
    mid_best: Option<ScoredSolution>,
) -> bool
    decreases lists.len() - r, 1int, taken, 2int,
{
    0 <= taken && composed_taking(sim, lists, skip, r, num_components, taken, old_best, mid_best)
}

/// What the `taken` highest ranking solutions of region `r` make of the
/// best solution, taken one after the other, the highest first.
#[verifier::opaque]
pub open spec fn composed_taking(
    sim: Sim,
    lists: Seq<Vec<ScoredSolution>>,
    skip: int,
    r: int,
    num_components: int,
    taken: int,
    old_best: Option<ScoredSolution>,
    new_best: Option<ScoredSolution>,
) -> bool
    decreases lists.len() - r, 1int, taken, 1int,
{
    if !(0 <= r < lists.len()) {
        false
    } else if taken <= 0 {
        new_best == old_best
    } else {
        exists|mid_best: Option<ScoredSolution>|
            {
                &&& #[trigger] is_between(mid_best)
                &&& composed_so_far(
                    sim,
                    lists,
                    skip,
                    r,
                    num_components,
                    taken - 1,
                    old_best,
                    mid_best,
                )
                &&& composed_with(
                    sim,
                    lists,
                    skip,
                    r,
                    num_components,
                    lists[r]@[lists[r]@.len() - taken],
                    mid_best,
                    new_best,
                )
            }
    }
}

/// What one solution `s` of region `r` makes of the best solution: its
/// buildings are added to a copy of `sim`, and if all of them can be
/// placed, the composition goes on with the next region. If one cannot be
/// placed, the best stays as it is.
#[verifier::opaque]
pub open spec fn composed_with(
    sim: Sim,
    lists: Seq<Vec<ScoredSolution>>,
    skip: int,
    r: int,
    num_components: int,
    s: ScoredSolution,
    old_best: Option<ScoredSolution>,
    new_best: Option<ScoredSolution>,
) -> bool
    decreases lists.len() - r, 0int, 0int, 0int,
{
    0 <= r < lists.len() && exists|copy: Sim, current: Sim, ok: bool|
        {
            &&& copy.same_as(sim)
            &&& #[trigger] solution_added(copy, s.sim.buildings.values@, ok, current)
            &&& if ok {
                composed(current, lists, skip, r + 1, num_components, old_best, new_best)
            } else {
                new_best == old_best
            }
        }
}

/// Composes `sim` with one solution of each region from `from_idx` on,
/// the region `skip_idx` left out, in every way that takes one of the
/// `num_components` best solutions of each; runs each composition and
/// keeps the best. A solution whose buildings cannot all be added is
/// passed over; where a region has no solution, nothing is composed.
pub fn recursive_permutations(
    sim: &Sim,
    best_solution: &mut Option<ScoredSolution>,
    region_solutions: &Vec<Vec<ScoredSolution>>,
    skip_idx: usize,
    from_idx: usize,
    num_components: usize,
)
    requires
        sim.wf(),
        all_wf(region_solutions@),
        *old(best_solution) matches Some(b) ==> b.wf(),
    ensures
        *final(best_solution) matches Some(b) ==> b.wf(),
        not_worse(*old(best_solution), *final(best_solution)),
        composed(
            *sim,
            region_solutions@,
            skip_idx as int,
            from_idx as int,
            num_components as int,
            *old(best_solution),
            *final(best_solution),
        ),
    decreases region_solutions@.len() - from_idx,
{
    let mut region_idx = from_idx;
    if region_idx == skip_idx && region_idx < region_solutions.len() {
        region_idx += 1;
    }
    if region_idx >= region_solutions.len() {
        let ghost before = *best_solution;
        if let Some(run) = try_run(sim) {
            keep_best(best_solution, sim, run);
        }
        proof {
            assert(composed(
                *sim,
                region_solutions@,
                skip_idx as int,
                from_idx as int,
                num_components as int,
                before,
                *best_solution,
            )) by {
                reveal(composed);
            }
        }
        return ;
    }
    let solutions = &region_solutions[region_idx];
    let total = region_solutions.len();
    proof {
        assert(composed_taking(
            *sim,
            region_solutions@,
            skip_idx as int,
            region_idx as int,
            num_components as int,
            0,
            *best_solution,
            *best_solution,
        )) by {
            reveal(composed_taking);
        }
    }
    let mut taken: usize = 0;
    while taken < num_components && taken < solutions.len()
        invariant
            sim.wf(),
            all_wf(region_solutions@),
            from_idx <= region_idx < region_solutions@.len(),
            region_idx == region_from(
                from_idx as int,
                skip_idx as int,
                region_solutions@.len() as int,
            ),
            total == region_solutions@.len(),
            solutions == &region_solutions@[region_idx as int],
            *best_solution matches Some(b) ==> b.wf(),
            not_worse(*old(best_solution), *best_solution),
            taken <= tried_of(num_components as int, solutions@.len() as int),
            composed_taking(
                *sim,
                region_solutions@,
                skip_idx as int,
                region_idx as int,
                num_components as int,
                taken as int,
                *old(best_solution),
                *best_solution,
            ),
        decreases solutions@.len() - taken,
    {
        let s = &solutions[solutions.len() - 1 - taken];
        let mut current = sim.duplicate();
        let ghost copy = current;
        let ghost before = *best_solution;
        let ok = add_solution_buildings(&mut current, &s.sim.buildings);
        if ok {
            recursive_permutations(
                &current,
                best_solution,
                region_solutions,
                skip_idx,
                region_idx + 1,
                num_components,
            );
        }
        proof {
            assert(solution_added(copy, s.sim.buildings.values@, ok, current));
            assert(composed_with(
                *sim,
                region_solutions@,
                skip_idx as int,
                region_idx as int,
                num_components as int,
                *s,
                before,
                *best_solution,
            )) by {
                reveal(composed_with);
            }
            assert(composed_taking(
                *sim,
                region_solutions@,
                skip_idx as int,
                region_idx as int,
                num_components as int,
                taken as int + 1,
                *old(best_solution),
                *best_solution,
            )) by {
                let r = region_idx as int;
                assert(*s == region_solutions@[r]@[region_solutions@[r]@.len() - (taken + 1)]);
                assert(composed_so_far(
                    *sim,
                    region_solutions@,
                    skip_idx as int,
                    r,
                    num_components as int,
                    taken as int + 1 - 1,
                    *old(best_solution),
                    before,
                )) by {
                    reveal(composed_so_far);
                    reveal(composed_taking);
                }
                assert(is_between(before));
                reveal(composed_taking);
                reveal(composed_so_far);
                reveal(composed_with);
                assert(composed_with(
                    *sim,
                    region_solutions@,
                    skip_idx as int,
                    r,
                    num_components as int,
                    region_solutions@[r]@[region_solutions@[r]@.len() - (taken + 1)],
                    before,
                    *best_solution,
                ));
            }
        }
        taken += 1;
    }
    proof {
        assert(taken == tried_of(num_components as int, solutions@.len() as int));
        assert(composed(
            *sim,
            region_solutions@,
            skip_idx as int,
            from_idx as int,
            num_components as int,
            *old(best_solution),
            *best_solution,
        )) by {
            reveal(composed);
            reveal(composed_taking);
        }
    }
}

/// The state of the combiner: the solutions received so far for each
/// region, the lower ranked first, and the best composition found.
#[derive(Clone, Debug, PartialEq, Eq)]
pub struct Combiner {
    pub num_components: usize,
    pub regional_solutions: Vec<Vec<ScoredSolution>>,
    pub best: Option<ScoredSolution>,
}

impl Combiner {
    /// Every solution kept is consistent and carries its outcome, each
    /// region's solutions are in order of rank, and so is the best.
    pub open spec fn wf(self) -> bool {
        &&& all_wf(self.regional_solutions@)
        &&& in_order(self.regional_solutions@)
        &&& self.best matches Some(b) ==> b.wf()
    }

    /// A combiner for `num_regions` regions that has received nothing.
    pub fn new(num_regions: usize) -> (c: Combiner)
        ensures
            c.wf(),
            c.best is None,
            c.regional_solutions@.len() == num_regions,
            spec_num_components(num_regions as int, c.num_components as int),
            is_fresh(c, num_regions as int),
    {
        let mut regional_solutions: Vec<Vec<ScoredSolution>> = Vec::new();
        let mut i: usize = 0;
        while i < num_regions
            invariant
                i <= num_regions,
                regional_solutions@.len() == i,
                forall|k: int| 0 <= k < i ==> (#[trigger] regional_solutions@[k])@.len() == 0,
            decreases num_regions - i,
        {
            regional_solutions.push(Vec::new());
            i += 1;
        }
        let c = Combiner {
            num_components: num_components(num_regions),
            regional_solutions,
            best: None,
        };
        proof {
            reveal(ScoredSolution::wf);
        }
        c
    }

    /// Takes in a solution of region `region_idx`.
    ///
    /// With one region the solution is run as it is. With more, it is
    /// composed with the solutions of the other regions; see
    /// `recursive_permutations`. The best outcome becomes the new best if it
    /// ranks above the old. Then the solution is filed among those of its
    /// region. A solution of a region that does not exist is dropped.
    pub fn receive(&mut self, region_idx: usize, solution: ScoredSolution)
        requires
            old(self).wf(),
            solution.wf(),
        ensures
            final(self).wf(),
            final(self).num_components == old(self).num_components,
            final(self).regional_solutions@.len() == old(self).regional_solutions@.len(),
            not_worse(old(self).best, final(self).best),
            forall|k: int|
                0 <= k < old(self).regional_solutions@.len() ==> (
                #[trigger] final(self).regional_solutions@[k])@.len() == old(self).regional_solutions@[k]@.len() + if k == region_idx {
                    1int
                } else {
                    0int
                },
            region_idx >= old(self).regional_solutions@.len() ==> final(self).best
                == old(self).best,
            region_idx == 0 && old(self).regional_solutions@.len() == 1 ==> is_best_of(
                old(self).best,
                solution.sim,
                solution.run,
                final(self).best,
            ),
            received(*old(self), region_idx as int, solution, *final(self)),
    {
        if region_idx >= self.regional_solutions.len() {
            proof {
                reveal(received);
            }
            return ;
        }
        proof {
            reveal(ScoredSolution::wf);
        }
        if self.regional_solutions.len() > 1 {
            recursive_permutations(
                &solution.sim,
                &mut self.best,
                &self.regional_solutions,
                region_idx,
                0,
                self.num_components,
            );
        } else {
            keep_best(&mut self.best, &solution.sim, solution.run);
        }
        let mut at: usize = 0;
        while at < self.regional_solutions[region_idx].len()
            && !self.regional_solutions[region_idx][at].run.better_than(&solution.run)
            invariant
                region_idx < self.regional_solutions@.len(),
                at <= self.regional_solutions@[region_idx as int]@.len(),
                forall|i: int|
                    0 <= i < at ==> !(
                    #[trigger] self.regional_solutions@[region_idx as int]@[i]).run.spec_better_than(
                        solution.run,
                    ),
            decreases self.regional_solutions@[region_idx as int]@.len() - at,
        {
            at += 1;
        }
        let ghost before = self.regional_solutions@;
        let ghost run = solution.run;
        file(&mut self.regional_solutions, region_idx, at, solution);
        proof {
            lemma_filed(before, self.regional_solutions@, region_idx as int, at as int, solution);
            assert(filed_at(before[region_idx as int]@, solution, at as int));
            assert(received(*old(self), region_idx as int, solution, *self)) by {
                reveal(received);
            }
        }
    }
}

/// A solution is filed at place `at` of a list in order of rank: behind
/// the solutions that do not rank above it, and before the first that
/// does.
pub open spec fn filed_at(list: Seq<ScoredSolution>, s: ScoredSolution, at: int) -> bool {
    &&& 0 <= at <= list.len()
    &&& forall|i: int| 0 <= i < at ==> !(#[trigger] list[i]).run.spec_better_than(s.run)
    &&& at < list.len() ==> list[at].run.spec_better_than(s.run)
}

/// What `Combiner::receive` makes of the combiner `old` when it takes in
/// `solution` for region `region_idx`.
///
/// A solution of a region that does not exist changes nothing. Otherwise
/// the best becomes what the compositions of the solution with the other
/// regions make of it, or with one region the better of it and the
/// solution; see `composed` and `is_best_of`. The solution is filed among
/// those of its region; see `filed_at`.
#[verifier::opaque]
pub open spec fn received(
    old: Combiner,
    region_idx: int,
    solution: ScoredSolution,
    new: Combiner,
) -> bool {
    let regions = old.regional_solutions@.len() as int;
    if region_idx < 0 || region_idx >= regions {
        new == old
    } else {
        &&& new.num_components == old.num_components
        &&& new.regional_solutions@.len() == regions
        &&& if regions > 1 {
            composed(
                solution.sim,
                old.regional_solutions@,
                region_idx,
                0,
                old.num_components as int,
                old.best,
                new.best,
            )
        } else {
            is_best_of(old.best, solution.sim, solution.run, new.best)
        }
        &&& forall|k: int|
            0 <= k < regions && k != region_idx ==> #[trigger] new.regional_solutions@[k]
                == old.regional_solutions@[k]
        &&& exists|at: int|
            #[trigger] filed_at(old.regional_solutions@[region_idx]@, solution, at)
                && new.regional_solutions@[region_idx]@ == old.regional_solutions@[region_idx]@.insert(
                at,
                solution,
            )
    }
}

/// A combiner that has received nothing.
pub open spec fn is_fresh(c: Combiner, num_regions: int) -> bool {
    &&& c.best is None
    &&& c.regional_solutions@.len() == num_regions
    &&& forall|k: int| 0 <= k < num_regions ==> (#[trigger] c.regional_solutions@[k])@.len() == 0
    &&& spec_num_components(num_regions, c.num_components as int)
}

/// Marks the combiner between two messages.
pub open spec fn is_before(c: Combiner) -> bool {
    true
}

/// The combiner `c` has taken in the first `n` of `messages`, all of them
/// solutions, one after the other; see `received`.
#[verifier::opaque]
pub open spec fn received_all(
    messages: Seq<CombineMessage>,
    num_regions: int,
    n: int,
    c: Combiner,
) -> bool
    decreases n,
{
    if n <= 0 {
        is_fresh(c, num_regions)
    } else if n > messages.len() {
        false
    } else {
        match messages[n - 1] {
            CombineMessage::Solution(r, s) => exists|prev: Combiner|
                {
                    &&& #[trigger] is_before(prev)
                    &&& received_all(messages, num_regions, n - 1, prev)
                    &&& received(prev, r as int, s, c)
                },
            CombineMessage::Done => false,
        }
    }
}

/// The messages are taken in up to place `n`: the first `Done`, or the end.
pub open spec fn stops_at(messages: Seq<CombineMessage>, n: int) -> bool {
    0 <= n <= messages.len() && (n < messages.len() ==> messages[n] is Done)
}

/// What `combine_solutions` returns: the best of the combiner that has
/// taken in the messages before the first `Done`.
pub open spec fn combined(
    messages: Seq<CombineMessage>,
    num_regions: int,
    best: Option<ScoredSolution>,
) -> bool {
    exists|n: int, c: Combiner|
        #![trigger stops_at(messages, n), is_before(c)]
        stops_at(messages, n) && is_before(c) && received_all(messages, num_regions, n, c) && best
            == c.best
}


/// Each region's solutions are in order of rank, the lower ranked first.
pub open spec fn in_order(lists: Seq<Vec<ScoredSolution>>) -> bool {
    forall|k: int, i: int, j: int|
        0 <= k < lists.len() && 0 <= i < j < lists[k]@.len() ==> !(
        #[trigger] lists[k]@[i]).run.spec_better_than((#[trigger] lists[k]@[j]).run)
}

/// A solution filed behind those that do not rank above it keeps the lists
/// in order.
pub proof fn lemma_filed(
    before: Seq<Vec<ScoredSolution>>,
    after: Seq<Vec<ScoredSolution>>,
    r: int,
    at: int,
    s: ScoredSolution,
)
    requires
        all_wf(before),
        in_order(before),
        s.wf(),
        0 <= r < before.len(),
        after.len() == before.len(),
        forall|k: int| 0 <= k < before.len() && k != r ==> #[trigger] after[k] == before[k],
        0 <= at <= before[r]@.len(),
        after[r]@ == before[r]@.insert(at, s),
        forall|i: int| 0 <= i < at ==> !(#[trigger] before[r]@[i]).run.spec_better_than(s.run),
        at < before[r]@.len() ==> before[r]@[at].run.spec_better_than(s.run),
    ensures
        all_wf(after),
        in_order(after),
{
    let list = before[r]@;
    assert forall|k: int, i: int| 0 <= k < after.len() && 0 <= i < after[k]@.len() implies (
    #[trigger] after[k]@[i]).wf() by {
        if k != r {
            assert(after[k] == before[k]);
            assert(before[k]@[i].wf());
        } else if i < at {
            assert(after[k]@[i] == list[i]);
            assert(before[r]@[i].wf());
        } else if i > at {
            assert(after[k]@[i] == list[i - 1]);
            assert(before[r]@[i - 1].wf());
        }
    }
    assert forall|k: int, i: int, j: int|
        0 <= k < after.len() && 0 <= i < j < after[k]@.len() implies !(
    #[trigger] after[k]@[i]).run.spec_better_than((#[trigger] after[k]@[j]).run) by {
        if k != r {
            assert(after[k] == before[k]);
            assert(!before[k]@[i].run.spec_better_than(before[k]@[j].run));
        } else {
            if j < at {
                assert(!before[r]@[i].run.spec_better_than(before[r]@[j].run));
            } else if i > at {
                assert(!before[r]@[i - 1].run.spec_better_than(before[r]@[j - 1].run));
            } else if i < at && j > at {
                assert(!before[r]@[i].run.spec_better_than(before[r]@[j - 1].run));
            } else if i < at && j == at {
                assert(!before[r]@[i].run.spec_better_than(s.run));
            } else if i == at {
                assert(before[r]@[at].run.spec_better_than(s.run));
                if j - 1 > at {
                    assert(!before[r]@[at].run.spec_better_than(before[r]@[j - 1].run));
                }
            }
        }
    }
}

/// Puts `solution` at place `at` among the solutions of region
/// `region_idx`.
fn file(
    lists: &mut Vec<Vec<ScoredSolution>>,
    region_idx: usize,
    at: usize,
    solution: ScoredSolution,
)
    requires
        region_idx < old(lists)@.len(),
        at <= old(lists)@[region_idx as int]@.len(),
    ensures
        final(lists)@.len() == old(lists)@.len(),
        forall|k: int|
            0 <= k < old(lists)@.len() && k != region_idx ==> #[trigger] final(lists)@[k] == old(lists)@[k],
        final(lists)@[region_idx as int]@ == old(lists)@[region_idx as int]@.insert(
            at as int,
            solution,
        ),
{
    let mut list: Vec<ScoredSolution> = Vec::new();
    core::mem::swap(&mut list, &mut lists[region_idx]);
    list.insert(at, solution);
    lists[region_idx] = list;
}

/// Takes in the messages in order up to the first `Done` and returns the
/// best composition found; see `Combiner::receive`.
pub fn combine_solutions(messages: Vec<CombineMessage>, num_regions: usize) -> (best: Option<
    ScoredSolution,
>)
    requires
        forall|i: int|
            0 <= i < messages@.len() ==> ((#[trigger] messages@[i]) matches CombineMessage::Solution(_, s) ==> s.wf()),
    ensures
        best matches Some(b) ==> b.wf(),
        combined(messages@, num_regions as int, best),
{
    let ghost all = messages@;
    let total = messages.len();
    let mut combiner = Combiner::new(num_regions);
    let mut queue = messages;
    let mut rest: Vec<CombineMessage> = Vec::new();
    // the messages are taken from the end: turn them round first
    while queue.len() > 0
        invariant
            all == messages@,
            total == all.len(),
            queue@.len() + rest@.len() == all.len(),
            forall|i: int| 0 <= i < queue@.len() ==> #[trigger] queue@[i] == all[i],
            forall|i: int| 0 <= i < rest@.len() ==> #[trigger] rest@[i] == all[all.len() - 1 - i],
        decreases queue@.len(),
    {
        if let Some(m) = queue.pop() {
            rest.push(m);
        }
    }
    let mut taken: usize = 0;
    proof {
        assert(received_all(all, num_regions as int, 0, combiner)) by {
            reveal(received_all);
        }
    }
    while rest.len() > 0
        invariant
            combiner.wf(),
            all == messages@,
            total == all.len(),
            taken + rest@.len() == all.len(),
            forall|i: int| 0 <= i < rest@.len() ==> #[trigger] rest@[i] == all[all.len() - 1 - i],
            forall|i: int|
                0 <= i < all.len() ==> ((#[trigger] all[i]) matches CombineMessage::Solution(_, s)
                    ==> s.wf()),
            received_all(all, num_regions as int, taken as int, combiner),
        decreases rest@.len(),
    {
        let ghost before = combiner;
        match rest.pop() {
            Some(CombineMessage::Solution(region_idx, solution)) => {
                proof {
                    assert(all[taken as int] == CombineMessage::Solution(region_idx, solution));
                }
                combiner.receive(region_idx, solution);
                proof {
                    assert(is_before(before));
                    assert(received_all(all, num_regions as int, taken as int + 1, combiner)) by {
                        reveal(received_all);
                    }
                }
                taken += 1;
            },
            _ => {
                proof {
                    assert(all[taken as int] is Done);
                    assert(stops_at(all, taken as int));
                    assert(is_before(combiner));
                }
                return combiner.best;
            },
        }
    }
    proof {
        assert(stops_at(all, taken as int));
        assert(is_before(combiner));
    }
    combiner.best
}

} // verus!
