use profit::board::Board;
use profit::building::{Building, Conveyor, Deposit, Factory, Mine};
use profit::connect::{
    connect_deposits_and_factory, find_connection_around, offset, route_deposit, try_place,
};
use profit::distance::{map_deposit_distances, map_distances};
use profit::flow::{run, SimRun};
use profit::geometry::{pos, Id, Pos, Rotation, FACTORY_SIZE};
use profit::path_stats::PathStats;
use profit::placement::place_building;
use profit::region::find_regions;
use profit::resources::{Product, ProductType, Products, ResourceType, Resources};
use profit::scene::Sim;
use profit::solver_error::Error;
use profit::stats::rank_regional_factory_positions;
use profit::tree::{keep_better, ConnectionTree, NodeId, State};

#[test]
fn path_stats() {
    assert!(PathStats::new(1, 0) > PathStats::new(4, 0));
    assert!(PathStats::new(1, 0) == PathStats::new(1, 0));
    assert!(PathStats::new(2, 0) < PathStats::new(1, 0));

    assert!(PathStats::new(1, 3) > PathStats::new(1, 1));
    assert!(PathStats::new(1, 2) == PathStats::new(1, 2));
    assert!(PathStats::new(1, 1) < PathStats::new(1, 3));
}

#[test]
fn find_conveyor_connection_around() {
    let board = Board::new(20, 20);
    let products = Products::default();
    let mut sim = Sim::new(products, board, 20, 20);

    let factory = Factory::new(pos(4, 2), ProductType::Type0);
    let factory_id = place_building(&mut sim, Building::Factory(factory)).unwrap();

    let distance_map = map_distances(&sim, factory.pos, FACTORY_SIZE as u8, FACTORY_SIZE as u8);

    // both conveyors run towards -x, into the factory
    let building = Building::Conveyor(Conveyor::new(pos(10, 3), Rotation::Down, false));
    place_building(&mut sim, building).unwrap();

    let building = Building::Conveyor(Conveyor::new(pos(13, 3), Rotation::Down, false));
    let conveyor_id = place_building(&mut sim, building).unwrap();

    let search_depth = 2;
    let parent_id = NodeId(324);
    let (state, stats) = find_connection_around(
        &sim,
        &distance_map,
        factory_id,
        parent_id,
        conveyor_id,
        Pos::new(12, 3),
        search_depth,
    )
    .unwrap();
    assert_eq!(state, State::Merged);
    assert_eq!(stats, Some((parent_id, PathStats::new(0, search_depth - 1))));
}

#[test]
fn the_better_find_is_kept() {
    let mut best = None;
    keep_better(&mut best, None);
    assert_eq!(best, None);
    keep_better(&mut best, Some((NodeId(1), PathStats::new(5, 1))));
    assert_eq!(best, Some((NodeId(1), PathStats::new(5, 1))));
    keep_better(&mut best, Some((NodeId(2), PathStats::new(5, 1))));
    assert_eq!(best, Some((NodeId(1), PathStats::new(5, 1))));
    keep_better(&mut best, Some((NodeId(3), PathStats::new(5, 2))));
    assert_eq!(best, Some((NodeId(3), PathStats::new(5, 2))));
    keep_better(&mut best, Some((NodeId(4), PathStats::new(4, 0))));
    assert_eq!(best, Some((NodeId(4), PathStats::new(4, 0))));
    keep_better(&mut best, Some((NodeId(5), PathStats::new(6, 9))));
    assert_eq!(best, Some((NodeId(4), PathStats::new(4, 0))));
}

#[test]
fn offsets_stay_within_the_coordinates() {
    assert_eq!(offset(pos(3, 4), -1, 2), Some(pos(2, 6)));
    assert_eq!(offset(pos(127, 0), 1, 0), None);
    assert_eq!(offset(pos(0, -128), 0, -1), None);
}

#[test]
fn a_placement_that_fails_changes_nothing() {
    let mut sim = Sim::new(Products::default(), Board::new(10, 10), 10, 10);
    assert_eq!(try_place(&mut sim, Building::Mine(Mine::new(pos(3, 3), Rotation::Up))), Some(Id(0)));
    let before = sim.clone();
    assert_eq!(try_place(&mut sim, Building::Mine(Mine::new(pos(4, 3), Rotation::Up))), None);
    assert_eq!(try_place(&mut sim, Building::Mine(Mine::new(pos(126, 3), Rotation::Up))), None);
    assert_eq!(sim, before);
}

fn task_scene() -> Sim {
    let mut products = Products::default();
    products.set(ProductType::Type0, Product::new(Resources::new([7, 0, 0, 0, 0, 0, 0, 0]), 9));
    let mut sim = Sim::new(products, Board::new(24, 10), 100, 100);
    place_building(&mut sim, Building::Deposit(Deposit::new(pos(0, 0), 4, 4, ResourceType::Type0)))
        .unwrap();
    sim
}

#[test]
fn a_deposit_is_routed_to_the_factory() {
    let mut sim = task_scene();
    let factory_id =
        place_building(&mut sim, Building::Factory(Factory::new(pos(12, 0), ProductType::Type0)))
            .unwrap();
    let map = map_distances(&sim, pos(12, 0), 5, 5);
    let mut tree = ConnectionTree::new();
    let deposit = Deposit::new(pos(0, 0), 4, 4, ResourceType::Type0);
    let res = route_deposit(&mut sim, &mut tree, &map, factory_id, Id(0), deposit, pos(12, 0), 2);
    assert_eq!(res, Ok(()));
    // the path leads from the deposit to the factory
    let outcome = run(&sim);
    assert!(outcome.points > 0);
    assert_eq!(outcome.points % 9, 0);
    assert!(sim.connections.iter().any(|c| c.output_id == Id(0)));
    assert!(sim.connections.iter().any(|c| c.input_id == factory_id));
}

#[test]
fn a_walled_in_deposit_has_no_path() {
    let mut products = Products::default();
    products.set(ProductType::Type0, Product::new(Resources::new([7, 0, 0, 0, 0, 0, 0, 0]), 9));
    let mut sim = Sim::new(products, Board::new(24, 10), 100, 100);
    place_building(&mut sim, Building::Deposit(Deposit::new(pos(0, 0), 2, 2, ResourceType::Type0)))
        .unwrap();
    place_building(&mut sim, Building::Obstacle(profit::building::Obstacle::new(pos(6, 0), 1, 10)))
        .unwrap();
    let factory_id =
        place_building(&mut sim, Building::Factory(Factory::new(pos(12, 0), ProductType::Type0)))
            .unwrap();
    let map = map_distances(&sim, pos(12, 0), 5, 5);
    let mut tree = ConnectionTree::new();
    let deposit = Deposit::new(pos(0, 0), 2, 2, ResourceType::Type0);
    let before = sim.clone();
    let res = route_deposit(&mut sim, &mut tree, &map, factory_id, Id(0), deposit, pos(12, 0), 2);
    assert_eq!(res, Err(Error::NoPath(Id(0), pos(0, 0), pos(12, 0))));
    assert_eq!(sim, before);
}

#[test]
fn the_ranked_position_leads_to_a_scored_scene() {
    let sim = task_scene();
    let regions = find_regions(&sim);
    let maps = map_deposit_distances(&sim);
    let ranked = rank_regional_factory_positions(&sim, &regions, &maps);
    assert_eq!(ranked.len(), 1);
    let product = &ranked[0].product_stats[0];
    assert_eq!(product.product_type, ProductType::Type0);
    assert_eq!(product.max_points, 99);
    let factory = product.factory_stats.iter().find(|f| f.pos == pos(12, 0)).unwrap();
    let mut tree = ConnectionTree::new();
    let (scene, outcome) =
        connect_deposits_and_factory(&sim, &mut tree, product, factory, 2).unwrap();
    assert_eq!(run(&scene), outcome);
    assert!(outcome.points > 0);
    assert!(outcome.points <= 99);
    assert_eq!(scene.products, sim.products);
    assert_eq!(sim, task_scene());
}

#[test]
fn a_factory_that_cannot_stand_is_an_error() {
    let sim = task_scene();
    let regions = find_regions(&sim);
    let maps = map_deposit_distances(&sim);
    let ranked = rank_regional_factory_positions(&sim, &regions, &maps);
    let product = &ranked[0].product_stats[0];
    let mut factory = product.factory_stats[0].clone();
    factory.pos = pos(1, 1);
    let mut tree = ConnectionTree::new();
    let res = connect_deposits_and_factory(&sim, &mut tree, product, &factory, 2);
    assert_eq!(res, Err(Error::Sim(profit::error::Error::Intersection(pos(1, 1)))));
    factory.pos = pos(22, 0);
    let res = connect_deposits_and_factory(&sim, &mut tree, product, &factory, 2);
    assert_eq!(res, Err(Error::Sim(profit::error::Error::OutOfBounds(pos(24, 0)))));
    factory.pos = pos(12, 0);
    factory.deposits_in_reach.clear();
    let res = connect_deposits_and_factory(&sim, &mut tree, product, &factory, 2);
    assert_eq!(res, Err(Error::NoSolution));
    let _ = SimRun { rounds: 0, points: 0, at_turn: 0 };
}

#[test]
fn connections_that_run_in_a_circle_lead_nowhere() {
    let mut sim = Sim::new(Products::default(), Board::new(20, 20), 20, 20);
    let factory_id =
        place_building(&mut sim, Building::Factory(Factory::new(pos(0, 0), ProductType::Type0)))
            .unwrap();
    let map = map_distances(&sim, pos(0, 0), 5, 5);
    // two conveyors side by side that feed each other
    let a = place_building(&mut sim, Building::Conveyor(Conveyor::new(pos(13, 15), Rotation::Left, false)))
        .unwrap();
    let b = place_building(&mut sim, Building::Conveyor(Conveyor::new(pos(14, 15), Rotation::Right, false)))
        .unwrap();
    assert_eq!(sim.connections.len(), 2);
    // a third conveyor whose output at (12, 16) feeds the first
    let c = place_building(&mut sim, Building::Conveyor(Conveyor::new(pos(11, 16), Rotation::Up, false)))
        .unwrap();
    assert!(sim.connections.iter().any(|l| l.output_id == c && l.input_id == a));
    let found = find_connection_around(&sim, &map, factory_id, NodeId(0), c, pos(12, 16), 2);
    assert_eq!(found, None);
    assert_eq!(profit::connect::next_hop(&sim, a), Some(b));
    assert_eq!(profit::connect::next_hop(&sim, b), Some(a));
    assert_eq!(profit::connect::next_hop(&sim, factory_id), None);
}

#[test]
fn a_chain_of_conveyors_merges_at_its_far_end() {
    let mut sim = Sim::new(Products::default(), Board::new(30, 10), 20, 20);
    let factory_id =
        place_building(&mut sim, Building::Factory(Factory::new(pos(0, 0), ProductType::Type0)))
            .unwrap();
    let map = map_distances(&sim, pos(0, 0), 5, 5);
    // three conveyors in a row towards the factory
    for x in [6, 9, 12] {
        place_building(&mut sim, Building::Conveyor(Conveyor::new(pos(x, 2), Rotation::Down, false)))
            .unwrap();
    }
    let last = place_building(&mut sim, Building::Conveyor(Conveyor::new(pos(15, 2), Rotation::Down, false)))
        .unwrap();
    // within a depth of 2 the walk passes two buildings; the second ends at (8, 2), 3 steps away
    let found = find_connection_around(&sim, &map, factory_id, NodeId(7), last, pos(14, 2), 2);
    assert_eq!(found, Some((State::Merged, Some((NodeId(7), PathStats::new(3, 0))))));
    // with depth to spare the walk reaches the conveyor beside the factory
    let found = find_connection_around(&sim, &map, factory_id, NodeId(7), last, pos(14, 2), 9);
    assert_eq!(found, Some((State::Merged, Some((NodeId(7), PathStats::new(0, 6))))));
    assert_eq!(profit::connect::output_cell(&sim.building(last)), Some(pos(14, 2)));
    assert_eq!(profit::connect::output_cell(&sim.building(factory_id)), None);
}

#[test]
fn slots_are_reserved_at_the_end_of_the_arena() {
    let mut tree = ConnectionTree::new();
    assert!(tree.has_room(80));
    let first = tree.reserve(3);
    let second = tree.reserve(2);
    assert_eq!((first.0, second.0, tree.nodes.len()), (0, 3, 5));
    assert_eq!(tree.get(NodeId(4)), profit::tree::ConnectionTreeNode::uninitialized());
    let mut len = 0;
    assert_eq!(profit::tree::increment_id(second, &mut len), NodeId(3));
    assert_eq!(profit::tree::increment_id(second, &mut len), NodeId(4));
    assert_eq!(len, 2);
    let mine = profit::tree::ConnectionBuilding::Mine(Mine::new(pos(1, 1), Rotation::Up));
    let node = profit::tree::ConnectionTreeNode::new(mine, pos(0, 2), pos(3, 2), State::Connected);
    tree.set(NodeId(3), node);
    assert_eq!(tree.get(NodeId(3)), node);
    assert_eq!(mine.to_building(), Building::Mine(Mine::new(pos(1, 1), Rotation::Up)));
    assert_eq!(Error::from_sim(profit::error::Error::OutOfBounds(pos(1, 1))), Error::Sim(profit::error::Error::OutOfBounds(pos(1, 1))));
}

#[test]
fn the_next_identifier_is_the_first_free() {
    let mut sim = Sim::new(Products::default(), Board::new(20, 20), 20, 20);
    assert_eq!(sim.next_id(), Id(0));
    let a = place_building(&mut sim, Building::Mine(Mine::new(pos(3, 3), Rotation::Up))).unwrap();
    let b = place_building(&mut sim, Building::Mine(Mine::new(pos(3, 8), Rotation::Up))).unwrap();
    assert_eq!(sim.next_id(), Id(2));
    profit::placement::remove_building(&mut sim, a);
    assert_eq!(sim.next_id(), a);
    assert_eq!(sim.building(b), Building::Mine(Mine::new(pos(3, 8), Rotation::Up)));
    assert_eq!(sim.duplicate(), sim);
    assert_eq!(
        profit::error::Error::from_io(profit::error::IoError::UnknownMineSubtype(9)),
        profit::error::Error::Io(profit::error::IoError::UnknownMineSubtype(9))
    );
}
