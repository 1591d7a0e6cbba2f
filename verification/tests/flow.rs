use profit::board::Board;
use profit::building::{Building, Conveyor, Deposit, Factory, Mine};
use profit::flow::{run, try_run, ResourceContainer, SimRun};
use profit::geometry::{pos, Rotation};
use profit::placement::place_building;
use profit::resources::{Product, ProductType, Products, ResourceType, Resources};
use profit::scene::Sim;

const TURNS: u32 = 100;
const TIME: u32 = 100;

fn producing_scene(turns: u32) -> Sim {
    let mut products = Products::default();
    products.set(ProductType::Type0, Product::new(Resources::new([7, 0, 0, 0, 0, 0, 0, 0]), 9));

    let mut sim = Sim::new(products, Board::new(20, 10), turns, TIME);

    let building = Building::Deposit(Deposit::new(pos(0, 0), 4, 4, ResourceType::Type0));
    place_building(&mut sim, building).unwrap();

    let building = Building::Mine(Mine::new(pos(5, 1), Rotation::Up));
    place_building(&mut sim, building).unwrap();

    let building = Building::Factory(Factory::new(pos(8, 0), ProductType::Type0));
    place_building(&mut sim, building).unwrap();
    sim
}

#[test]
fn deposit_mine_factory() {
    let sim = producing_scene(TURNS);
    let run = run(&sim);
    assert_eq!(run, SimRun { rounds: 29, points: 99, at_turn: 28 });
}

#[test]
fn running_twice_gives_the_same_outcome() {
    let sim = producing_scene(TURNS);
    assert_eq!(try_run(&sim), try_run(&sim));
    assert_eq!(try_run(&sim), Some(SimRun { rounds: 29, points: 99, at_turn: 28 }));
}

#[test]
fn a_drained_pipeline_ends_the_run_early() {
    // 80 units leave the deposit in 27 rounds; the last reach the factory two rounds later
    let sim = producing_scene(1000);
    assert_eq!(run(&sim).rounds, 29);
    // the turn budget cuts the run short
    let sim = producing_scene(10);
    assert_eq!(run(&sim), SimRun { rounds: 10, points: 27, at_turn: 9 });
}

#[test]
fn an_empty_scene_is_quiet_at_once() {
    let sim = Sim::new(Products::default(), Board::new(5, 5), TURNS, TIME);
    assert_eq!(run(&sim), SimRun { rounds: 0, points: 0, at_turn: 0 });
}

#[test]
fn a_deposit_gives_three_units_a_round_until_empty() {
    // a 1x1 deposit holds 5 units: 3, then 2, then nothing
    let d = Deposit::new(pos(0, 0), 1, 1, ResourceType::Type2);
    assert_eq!(d.resources(), 5);
    let mut c = ResourceContainer::Deposit(ResourceType::Type2, d.resources());
    assert_eq!(c.output_resources(), Resources::new([0, 0, 3, 0, 0, 0, 0, 0]));
    assert_eq!(c.output_resources(), Resources::new([0, 0, 2, 0, 0, 0, 0, 0]));
    assert_eq!(c, ResourceContainer::Deposit(ResourceType::Type2, 0));
    assert_eq!(c.output_resources(), Resources::new([0; 8]));
    // a 4x4 deposit holds 80 units and is empty after ceil(80 / 3) = 27 rounds
    let mut c = ResourceContainer::Deposit(ResourceType::Type0, 80);
    for _ in 0..26 {
        c.output_resources();
    }
    assert_eq!(c, ResourceContainer::Deposit(ResourceType::Type0, 2));
    c.output_resources();
    assert_eq!(c, ResourceContainer::Deposit(ResourceType::Type0, 0));
}

#[test]
fn a_connector_passes_on_all_it_holds() {
    let mut c = ResourceContainer::Connector(Resources::new([1, 2, 3, 4, 5, 6, 7, 8]));
    c.input_resources(Resources::new([1, 1, 1, 1, 1, 1, 1, 1]));
    assert_eq!(c, ResourceContainer::Connector(Resources::new([2, 3, 4, 5, 6, 7, 8, 9])));
    assert_eq!(c.output_resources(), Resources::new([2, 3, 4, 5, 6, 7, 8, 9]));
    assert_eq!(c, ResourceContainer::Connector(Resources::new([0; 8])));
}

#[test]
fn a_slot_the_recipe_does_not_use_sets_no_limit() {
    let held = Resources::new([15, 0, 0, 0, 0, 0, 0, 0]);
    let recipe = Resources::new([7, 0, 0, 0, 0, 0, 0, 0]);
    assert!(held.has_at_least(&recipe));
    assert_eq!(held.div(&recipe), Resources::new([2, 65535, 65535, 65535, 65535, 65535, 65535, 65535]));
    assert_eq!(held.div(&recipe).min(), 2);
}

#[test]
fn a_conveyor_delays_by_one_round() {
    let mut products = Products::default();
    products.set(ProductType::Type1, Product::new(Resources::new([3, 0, 0, 0, 0, 0, 0, 0]), 2));
    // the mine's input at (1, 1) lies beside the deposit
    let mut sim2 = Sim::new(products, Board::new(30, 10), TURNS, TIME);
    place_building(&mut sim2, Building::Deposit(Deposit::new(pos(0, 1), 1, 1, ResourceType::Type0)))
        .unwrap();
    place_building(&mut sim2, Building::Mine(Mine::new(pos(2, 0), Rotation::Up))).unwrap();
    place_building(&mut sim2, Building::Conveyor(Conveyor::new(pos(6, 1), Rotation::Up, false)))
        .unwrap();
    place_building(&mut sim2, Building::Factory(Factory::new(pos(8, 0), ProductType::Type1)))
        .unwrap();
    assert_eq!(sim2.connections.len(), 3);
    // 5 units: 3 arrive in round 4, the other 2 in round 5: one product
    assert_eq!(run(&sim2), SimRun { rounds: 5, points: 2, at_turn: 4 });
}

#[test]
fn better_runs_score_more_then_earlier_then_shorter() {
    let a = SimRun { rounds: 10, points: 20, at_turn: 9 };
    assert!(SimRun { rounds: 50, points: 21, at_turn: 40 }.better_than(&a));
    assert!(SimRun { rounds: 50, points: 20, at_turn: 8 }.better_than(&a));
    assert!(SimRun { rounds: 9, points: 20, at_turn: 9 }.better_than(&a));
    assert!(!a.better_than(&a));
    assert!(!SimRun { rounds: 1, points: 19, at_turn: 1 }.better_than(&a));
}

#[test]
fn a_bounded_scene_can_be_run() {
    let sim = producing_scene(TURNS);
    assert!(profit::bounds::can_run(&sim));
    assert_eq!(try_run(&sim), Some(run(&sim)));
    // a product that scores too much
    let mut rich = producing_scene(TURNS);
    rich.products.set(ProductType::Type1, Product::new(Resources::new([1, 0, 0, 0, 0, 0, 0, 0]), 65538));
    assert!(!profit::bounds::can_run(&rich));
    // a product that scores for nothing
    let mut free = producing_scene(TURNS);
    free.products.set(ProductType::Type1, Product::new(Resources::new([0; 8]), 1));
    assert!(!profit::bounds::can_run(&free));
    // a board full of deposits holds 50000 units
    let mut full = Sim::new(Products::default(), Board::new(100, 100), TURNS, TIME);
    for y in 0..5 {
        for x in 0..5 {
            let deposit = Deposit::new(pos(20 * x, 20 * y), 20, 20, ResourceType::Type0);
            place_building(&mut full, Building::Deposit(deposit)).unwrap();
        }
    }
    assert!(profit::bounds::can_run(&full));
    assert_eq!(try_run(&full), Some(SimRun { rounds: 0, points: 0, at_turn: 0 }));
    // deposits without cells hold no more than 16 bits count either
    let mut store = Sim::new(Products::default(), Board::new(10, 10), TURNS, TIME);
    for _ in 0..6 {
        store.buildings.push(Building::Deposit(Deposit::new(pos(0, 0), 50, 50, ResourceType::Type0)));
    }
    assert!(!profit::bounds::can_run(&store));
    store.buildings.remove(profit::geometry::Id(5));
    assert!(profit::bounds::can_run(&store));
    store.buildings.push(Building::Deposit(Deposit::new(pos(0, 0), 120, 120, ResourceType::Type0)));
    assert!(!profit::bounds::can_run(&store));
    assert_eq!(try_run(&store), None);
}

#[test]
fn a_factory_that_scores_for_nothing_overflows_in_time() {
    let mut products = Products::default();
    products.set(ProductType::Type0, Product::new(Resources::new([0; 8]), 60000));
    let mut sim = Sim::new(products, Board::new(10, 10), 100, TIME);
    place_building(&mut sim, Building::Factory(Factory::new(pos(0, 0), ProductType::Type0))).unwrap();
    // each round scores 65535 * 60000 points: the second does not fit in 32 bits
    assert_eq!(try_run(&sim), None);
    sim.turns = 1;
    assert_eq!(try_run(&sim), Some(SimRun { rounds: 1, points: 3_932_100_000, at_turn: 1 }));
}

fn units(c: &ResourceContainer) -> u32 {
    match c {
        ResourceContainer::Deposit(_, n) => u32::from(*n),
        ResourceContainer::Connector(r) | ResourceContainer::Factory(_, r) => {
            r.iter().into_iter().map(u32::from).sum()
        }
    }
}

#[test]
fn units_are_moved_and_not_made() {
    let mut deposit = ResourceContainer::Deposit(ResourceType::Type0, 10);
    let mut mine = ResourceContainer::Connector(Resources::default());
    let mut factory = ResourceContainer::Factory(ProductType::Type0, Resources::default());
    let mut to_mine = Resources::default();
    let mut to_factory = Resources::default();
    let total = |d: &ResourceContainer, m: &ResourceContainer, f: &ResourceContainer, a: &Resources, b: &Resources| {
        units(d) + units(m) + units(f) + units(&ResourceContainer::Connector(*a)) + units(&ResourceContainer::Connector(*b))
    };
    for _ in 0..6 {
        // ingress
        mine.input_resources(to_mine);
        factory.input_resources(to_factory);
        // egress
        to_mine = deposit.output_resources();
        to_factory = mine.output_resources();
        assert_eq!(total(&deposit, &mine, &factory, &to_mine, &to_factory), 10);
    }
    assert_eq!(deposit, ResourceContainer::Deposit(ResourceType::Type0, 0));
    assert_eq!(factory, ResourceContainer::Factory(ProductType::Type0, Resources::new([10, 0, 0, 0, 0, 0, 0, 0])));
    // the factory of the scene uses 7 units for each of its 11 products and keeps 3
    let sim = producing_scene(TURNS);
    assert_eq!(run(&sim).points / 9 * 7 + 3, 80);
}

#[test]
fn no_more_of_a_type_is_used_than_its_deposits_hold() {
    let mut products = Products::default();
    products.set(ProductType::Type0, Product::new(Resources::new([7, 2, 0, 0, 0, 0, 0, 0]), 9));
    let mut sim = Sim::new(products, Board::new(20, 10), TURNS, TIME);
    // 80 units of the first type to the left of the factory, 20 of the second to its right
    place_building(&mut sim, Building::Deposit(Deposit::new(pos(0, 0), 4, 4, ResourceType::Type0)))
        .unwrap();
    place_building(&mut sim, Building::Deposit(Deposit::new(pos(17, 1), 2, 2, ResourceType::Type1)))
        .unwrap();
    place_building(&mut sim, Building::Mine(Mine::new(pos(5, 1), Rotation::Up))).unwrap();
    place_building(&mut sim, Building::Mine(Mine::new(pos(14, 2), Rotation::Down))).unwrap();
    place_building(&mut sim, Building::Factory(Factory::new(pos(8, 0), ProductType::Type0))).unwrap();
    assert_eq!(sim.connections.len(), 4);

    let outcome = run(&sim);
    // the second type runs out first: 20 units make 10 products
    assert_eq!(outcome.points, 90);
    let made = outcome.points / 9;
    assert!(made * 7 <= 80);
    assert!(made * 2 <= 20);
    // without the second deposit nothing can be made
    let mut products = Products::default();
    products.set(ProductType::Type0, Product::new(Resources::new([7, 2, 0, 0, 0, 0, 0, 0]), 9));
    let mut sim = Sim::new(products, Board::new(20, 10), TURNS, TIME);
    place_building(&mut sim, Building::Deposit(Deposit::new(pos(0, 0), 4, 4, ResourceType::Type0)))
        .unwrap();
    place_building(&mut sim, Building::Mine(Mine::new(pos(5, 1), Rotation::Up))).unwrap();
    place_building(&mut sim, Building::Factory(Factory::new(pos(8, 0), ProductType::Type0))).unwrap();
    assert_eq!(run(&sim).points, 0);
}
