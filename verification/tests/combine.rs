use profit::board::Board;
use profit::building::{Building, Deposit, Factory, Mine};
use profit::cluster::{find_clusters, Cluster};
use profit::combine::{
    add_solution_buildings, combine_solutions, keep_best, num_components, CombineMessage, Combiner,
    ScoredSolution,
};
use profit::flow::{run, SimRun};
use profit::geometry::{pos, Id, Rotation};
use profit::placement::place_building;
use profit::resources::{Product, ProductType, Products, ResourceType, Resources};
use profit::scene::Sim;
use profit::schedule::{Schedule, Step};
use profit::stats::{FactoryStats, ProductStats, RegionStats};

fn base() -> Sim {
    let mut products = Products::default();
    products.set(ProductType::Type0, Product::new(Resources::new([7, 0, 0, 0, 0, 0, 0, 0]), 9));
    let mut sim = Sim::new(products, Board::new(40, 10), 100, 100);
    place_building(&mut sim, Building::Deposit(Deposit::new(pos(0, 0), 4, 4, ResourceType::Type0)))
        .unwrap();
    place_building(&mut sim, Building::Deposit(Deposit::new(pos(20, 0), 2, 2, ResourceType::Type0)))
        .unwrap();
    sim
}

fn left() -> ScoredSolution {
    let mut sim = base();
    place_building(&mut sim, Building::Mine(Mine::new(pos(5, 1), Rotation::Up))).unwrap();
    place_building(&mut sim, Building::Factory(Factory::new(pos(8, 0), ProductType::Type0))).unwrap();
    let outcome = run(&sim);
    assert_eq!(outcome, SimRun { rounds: 29, points: 99, at_turn: 28 });
    ScoredSolution::new(sim, outcome)
}

fn right() -> ScoredSolution {
    let mut sim = base();
    place_building(&mut sim, Building::Mine(Mine::new(pos(23, 0), Rotation::Up))).unwrap();
    place_building(&mut sim, Building::Factory(Factory::new(pos(26, 0), ProductType::Type0))).unwrap();
    let outcome = run(&sim);
    assert_eq!(outcome.points, 18);
    ScoredSolution::new(sim, outcome)
}

#[test]
fn as_many_solutions_per_region_as_a_thousand_compositions_allow() {
    assert_eq!(num_components(0), 1);
    assert_eq!(num_components(1), 1);
    assert_eq!(num_components(2), 9);
    assert_eq!(num_components(3), 6);
    assert_eq!(num_components(10), 3);
    assert_eq!(num_components(31), 2);
    assert_eq!(num_components(32), 1);
    assert_eq!(num_components(1000), 1);
    assert_eq!(num_components(1001), 1);
}

#[test]
fn the_best_is_replaced_only_by_a_better() {
    let a = left();
    let b = right();
    let mut best = None;
    keep_best(&mut best, &b.sim, b.run);
    assert_eq!(best, Some(b.clone()));
    keep_best(&mut best, &a.sim, a.run);
    assert_eq!(best, Some(a.clone()));
    keep_best(&mut best, &b.sim, b.run);
    assert_eq!(best, Some(a));
}

#[test]
fn the_buildings_of_a_solution_are_added() {
    let mut sim = left().sim;
    assert!(add_solution_buildings(&mut sim, &right().sim.buildings));
    // the deposits are not added again: two deposits, two mines, two factories
    assert_eq!(sim.buildings.values.iter().flatten().count(), 6);
    assert_eq!(run(&sim).points, 99 + 18);
    // the same buildings once more do not fit
    let before = sim.buildings.values.len();
    assert!(!add_solution_buildings(&mut sim, &right().sim.buildings));
    assert_eq!(sim.buildings.values.iter().flatten().count(), before);
}

#[test]
fn with_one_region_the_best_solution_wins() {
    let best = combine_solutions(
        vec![
            CombineMessage::Solution(0, right()),
            CombineMessage::Solution(0, left()),
            CombineMessage::Solution(0, right()),
            CombineMessage::Done,
        ],
        1,
    );
    assert_eq!(best, Some(left()));
    assert_eq!(combine_solutions(vec![CombineMessage::Done, CombineMessage::Solution(0, left())], 1), None);
    assert_eq!(combine_solutions(vec![], 1), None);
}

#[test]
fn solutions_of_two_regions_are_composed() {
    let mut combiner = Combiner::new(2);
    assert_eq!(combiner.num_components, 9);
    // nothing to compose with yet
    combiner.receive(0, left());
    assert_eq!(combiner.best, None);
    combiner.receive(1, right());
    let best = combiner.best.clone().unwrap();
    assert_eq!(best.run.points, 99 + 18);
    assert_eq!(run(&best.sim), best.run);
    // a message for a region that does not exist is dropped
    combiner.receive(2, left());
    assert_eq!(combiner.best, Some(best.clone()));
    // the best never gets worse
    combiner.receive(1, right());
    assert_eq!(combiner.best.as_ref().unwrap().run, best.run);
    assert_eq!(combiner.regional_solutions[0].len(), 1);
    assert_eq!(combiner.regional_solutions[1].len(), 2);
}

#[test]
fn solutions_are_filed_in_order_of_rank() {
    let mut combiner = Combiner::new(1);
    combiner.receive(0, left());
    combiner.receive(0, right());
    combiner.receive(0, left());
    let points: Vec<u32> = combiner.regional_solutions[0].iter().map(|s| s.run.points).collect();
    assert_eq!(points, vec![18, 99, 99]);
}

fn stats(positions: &[usize]) -> RegionStats {
    RegionStats {
        product_stats: positions
            .iter()
            .map(|n| ProductStats {
                product_type: ProductType::Type0,
                max_points: 1,
                deposit_stats: vec![],
                factory_stats: (0..*n)
                    .map(|i| FactoryStats {
                        pos: pos(i as i8, 0),
                        deposits_in_reach: vec![],
                        dists: vec![],
                        max_products: 1,
                    })
                    .collect(),
            })
            .collect(),
    }
}

#[test]
fn the_schedule_visits_every_position_pass_by_pass() {
    let regions = vec![stats(&[2, 1]), stats(&[1])];
    let mut schedule = Schedule::new(2);
    let seed = |region, product, factory| Step::Seed { region, product, factory, search_depth: 2 };
    let mut steps = Vec::new();
    for _ in 0..12 {
        steps.push(schedule.next_step(&regions));
    }
    assert_eq!(
        steps,
        vec![
            seed(0, 0, 0),
            seed(1, 0, 0),
            Step::EndOfPass,
            seed(0, 0, 1),
            Step::EndOfPass,
            Step::EndOfPass,
            seed(0, 1, 0),
            Step::EndOfPass,
            Step::EndOfPass,
            Step::EndOfPass,
            Step::Seed { region: 0, product: 0, factory: 0, search_depth: 3 },
            Step::Seed { region: 1, product: 0, factory: 0, search_depth: 3 },
        ]
    );
}

#[test]
fn the_schedule_ends_after_the_deepest_search() {
    let regions: Vec<RegionStats> = vec![];
    let mut schedule = Schedule::new(0);
    let mut passes = 0;
    while schedule.next_step(&regions) != Step::Finished {
        passes += 1;
    }
    assert_eq!(passes, 254);
    assert_eq!(schedule.search_depth, 255);
    assert_eq!(schedule.next_step(&regions), Step::Finished);
}

#[test]
fn clusters_are_the_regions() {
    let sim = base();
    let clusters = find_clusters(&sim);
    assert_eq!(clusters.len(), 1);
    assert_eq!(clusters[0].buildings, vec![Id(0), Id(1)]);
    assert_eq!(clusters[0].cells.len(), 400 - 16 - 4);
    assert_eq!(Cluster::new(vec![Id(3)], vec![pos(1, 2)]).cells, vec![pos(1, 2)]);
}
