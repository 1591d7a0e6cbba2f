use profit::board::Board;
use profit::building::{Building, Conveyor, Deposit, Factory, Mine, Obstacle};
use profit::combine::{recursive_permutations, ScoredSolution};
use profit::connect::{continue_subtree, place_children_connectors, place_node};
use profit::distance::map_distances;
use profit::flow::run;
use profit::geometry::{pos, Id, Rotation};
use profit::path_stats::PathStats;
use profit::placement::place_building;
use profit::resources::{Product, ProductType, Products, ResourceType, Resources};
use profit::scene::Sim;
use profit::tree::{ConnectionBuilding, ConnectionTree, ConnectionTreeNode, NodeId, State};

fn factory_scene() -> (Sim, Id) {
    let mut sim = Sim::new(Products::default(), Board::new(20, 20), 20, 20);
    let factory_id =
        place_building(&mut sim, Building::Factory(Factory::new(pos(0, 0), ProductType::Type0)))
            .unwrap();
    (sim, factory_id)
}

// a short conveyor with its input on (7, 2) and its output on (5, 2), beside the factory
fn conveyor_to_the_factory() -> ConnectionBuilding {
    ConnectionBuilding::Conveyor(Conveyor::new(pos(6, 2), Rotation::Down, false))
}

#[test]
fn a_node_that_ends_beside_the_factory_is_connected() {
    let (mut sim, factory_id) = factory_scene();
    let map = map_distances(&sim, pos(0, 0), 5, 5);
    assert_eq!(map.steps(pos(5, 2)), Some(0));
    let mut tree = ConnectionTree::new();
    let children = tree.reserve(4);
    let mut len = 0;
    let before = sim.clone();
    let found = place_node(
        &mut sim,
        &mut tree,
        &map,
        factory_id,
        children,
        &mut len,
        2,
        conveyor_to_the_factory(),
        pos(7, 2),
        pos(5, 2),
    );
    assert_eq!(found, Some((NodeId(0), PathStats::new(0, 1))));
    assert_eq!(len, 1);
    assert_eq!(
        tree.get(NodeId(0)),
        ConnectionTreeNode::new(conveyor_to_the_factory(), pos(7, 2), pos(5, 2), State::Connected)
    );
    assert_eq!(tree.get(NodeId(1)), ConnectionTreeNode::uninitialized());
    // the conveyor is gone again
    assert_eq!(sim.board, before.board);
    assert_eq!(sim.connections, before.connections);
    assert!(!sim.buildings.contains(Id(1)));
}

#[test]
fn a_node_from_whose_output_no_way_leads_on_is_not_tried() {
    let (mut sim, factory_id) = factory_scene();
    let map = map_distances(&sim, pos(0, 0), 5, 5);
    assert_eq!(map.steps(pos(2, 2)), None);
    let mut tree = ConnectionTree::new();
    let children = tree.reserve(4);
    let mut len = 0;
    let before = sim.clone();
    let conveyor = ConnectionBuilding::Conveyor(Conveyor::new(pos(3, 6), Rotation::Left, false));
    let found = place_node(
        &mut sim,
        &mut tree,
        &map,
        factory_id,
        children,
        &mut len,
        2,
        conveyor,
        pos(3, 7),
        pos(2, 2),
    );
    assert_eq!(found, None);
    assert_eq!(len, 0);
    assert_eq!(tree.get(NodeId(0)), ConnectionTreeNode::uninitialized());
    assert_eq!(sim, before);
}

#[test]
fn a_node_that_cannot_be_placed_is_not_written() {
    let (mut sim, factory_id) = factory_scene();
    place_building(&mut sim, Building::Obstacle(Obstacle::new(pos(7, 2), 1, 1))).unwrap();
    let map = map_distances(&sim, pos(0, 0), 5, 5);
    let mut tree = ConnectionTree::new();
    let children = tree.reserve(4);
    let mut len = 0;
    let before = sim.clone();
    let found = place_node(
        &mut sim,
        &mut tree,
        &map,
        factory_id,
        children,
        &mut len,
        2,
        conveyor_to_the_factory(),
        pos(7, 2),
        pos(5, 2),
    );
    assert_eq!(found, None);
    assert_eq!(len, 0);
    assert_eq!(tree.get(NodeId(0)), ConnectionTreeNode::uninitialized());
    assert_eq!(sim, before);
}

#[test]
fn no_step_left_to_the_factory_is_a_connection() {
    let (mut sim, factory_id) = factory_scene();
    let map = map_distances(&sim, pos(0, 0), 5, 5);
    let conveyor =
        place_building(&mut sim, conveyor_to_the_factory().to_building()).unwrap();
    let mut tree = ConnectionTree::new();
    tree.reserve(1);
    let before = sim.clone();
    let found =
        place_children_connectors(&mut sim, &mut tree, &map, factory_id, conveyor, NodeId(0), pos(5, 2), 0, 3);
    assert_eq!(found, (State::Connected, Some((NodeId(0), PathStats::new(0, 3)))));
    assert_eq!(sim, before);
    assert_eq!(tree.nodes.len(), 1);
}

#[test]
fn without_depth_the_search_stops_where_it_stands() {
    let (mut sim, factory_id) = factory_scene();
    let map = map_distances(&sim, pos(0, 0), 5, 5);
    // a conveyor far from the factory, with its output on (12, 10)
    let conveyor = place_building(
        &mut sim,
        Building::Conveyor(Conveyor::new(pos(13, 10), Rotation::Down, false)),
    )
    .unwrap();
    let dist = map.steps(pos(12, 10)).unwrap();
    assert!(dist > 0);
    let mut tree = ConnectionTree::new();
    tree.reserve(1);
    let before = sim.clone();
    let found = place_children_connectors(
        &mut sim,
        &mut tree,
        &map,
        factory_id,
        conveyor,
        NodeId(0),
        pos(12, 10),
        dist,
        0,
    );
    assert_eq!(found, (State::Stopped, Some((NodeId(0), PathStats::new(dist, 0)))));
    assert_eq!(sim, before);
    assert_eq!(tree.nodes.len(), 1);
}

#[test]
fn with_depth_the_search_expands_and_leaves_the_scene() {
    let (mut sim, factory_id) = factory_scene();
    let map = map_distances(&sim, pos(0, 0), 5, 5);
    let conveyor = place_building(
        &mut sim,
        Building::Conveyor(Conveyor::new(pos(13, 10), Rotation::Down, false)),
    )
    .unwrap();
    let dist = map.steps(pos(12, 10)).unwrap();
    let mut tree = ConnectionTree::new();
    tree.reserve(1);
    let before = sim.clone();
    let (state, stats) = place_children_connectors(
        &mut sim,
        &mut tree,
        &map,
        factory_id,
        conveyor,
        NodeId(0),
        pos(12, 10),
        dist,
        1,
    );
    // a run of slots is reserved behind the one that was there
    match state {
        State::Children { start, len } => {
            assert_eq!(start.0, 1);
            assert!(len > 0);
            // the best names one of the children, and comes nearer to the factory
            let (best, path) = stats.unwrap();
            assert!(1 <= best.0 && best.0 < 1 + len as u32);
            assert!(path.dist < dist);
            assert_eq!(path.depth, 0);
        },
        other => panic!("{:?}", other),
    }
    assert_eq!(sim.board, before.board);
    assert_eq!(sim.connections, before.connections);
}

#[test]
fn a_connected_child_is_the_best_of_its_subtree() {
    let (mut sim, factory_id) = factory_scene();
    let map = map_distances(&sim, pos(0, 0), 5, 5);
    let mut tree = ConnectionTree::new();
    let children = tree.reserve(2);
    // the first child cannot be placed for want of depth; the second is connected
    let far = ConnectionBuilding::Conveyor(Conveyor::new(pos(13, 10), Rotation::Down, false));
    tree.set(NodeId(0), ConnectionTreeNode::new(far, pos(14, 10), pos(12, 10), State::Stopped));
    tree.set(
        NodeId(1),
        ConnectionTreeNode::new(conveyor_to_the_factory(), pos(7, 2), pos(5, 2), State::Connected),
    );
    let before = sim.clone();
    let nodes = tree.nodes.clone();
    let found = continue_subtree(&mut sim, &mut tree, &map, factory_id, children, 2, 0);
    assert_eq!(found, Some((NodeId(1), PathStats::new(0, 0))));
    assert_eq!(sim, before);
    assert_eq!(tree.nodes, nodes);
    // no child, nothing found
    assert_eq!(continue_subtree(&mut sim, &mut tree, &map, factory_id, children, 0, 3), None);
    // only the first child, and no depth to expand it
    assert_eq!(continue_subtree(&mut sim, &mut tree, &map, factory_id, children, 1, 0), None);
    assert_eq!(sim, before);
}

#[test]
fn a_stopped_child_is_expanded_with_one_level_less() {
    let (mut sim, factory_id) = factory_scene();
    let map = map_distances(&sim, pos(0, 0), 5, 5);
    let mut tree = ConnectionTree::new();
    let children = tree.reserve(1);
    tree.set(
        NodeId(0),
        ConnectionTreeNode::new(conveyor_to_the_factory(), pos(7, 2), pos(5, 2), State::Stopped),
    );
    let before = sim.clone();
    let found = continue_subtree(&mut sim, &mut tree, &map, factory_id, children, 1, 2);
    assert_eq!(found, Some((NodeId(0), PathStats::new(0, 1))));
    // the child has the state that the search gave
    assert_eq!(tree.get(NodeId(0)).state, State::Connected);
    assert_eq!(sim.board, before.board);
    assert_eq!(sim.connections, before.connections);
}

#[test]
fn a_child_that_cannot_be_placed_ends_the_subtree() {
    let (mut sim, factory_id) = factory_scene();
    place_building(&mut sim, Building::Obstacle(Obstacle::new(pos(7, 2), 1, 1))).unwrap();
    let map = map_distances(&sim, pos(0, 0), 5, 5);
    let mut tree = ConnectionTree::new();
    let children = tree.reserve(2);
    tree.set(
        NodeId(0),
        ConnectionTreeNode::new(conveyor_to_the_factory(), pos(7, 2), pos(5, 2), State::Stopped),
    );
    let free = ConnectionBuilding::Conveyor(Conveyor::new(pos(6, 3), Rotation::Down, false));
    tree.set(NodeId(1), ConnectionTreeNode::new(free, pos(7, 3), pos(5, 3), State::Connected));
    let before = sim.clone();
    assert_eq!(continue_subtree(&mut sim, &mut tree, &map, factory_id, children, 2, 2), None);
    assert_eq!(sim, before);
}

fn two_deposits() -> Sim {
    let mut products = Products::default();
    products.set(ProductType::Type0, Product::new(Resources::new([7, 0, 0, 0, 0, 0, 0, 0]), 9));
    let mut sim = Sim::new(products, Board::new(40, 10), 100, 100);
    place_building(&mut sim, Building::Deposit(Deposit::new(pos(0, 0), 4, 4, ResourceType::Type0)))
        .unwrap();
    place_building(&mut sim, Building::Deposit(Deposit::new(pos(20, 0), 2, 2, ResourceType::Type0)))
        .unwrap();
    sim
}

fn scored(mine: Mine, factory: Factory) -> ScoredSolution {
    let mut sim = two_deposits();
    place_building(&mut sim, Building::Mine(mine)).unwrap();
    place_building(&mut sim, Building::Factory(factory)).unwrap();
    let outcome = run(&sim);
    ScoredSolution::new(sim, outcome)
}

#[test]
fn the_solutions_of_the_other_regions_are_added_to_the_scene() {
    let left = scored(
        Mine::new(pos(5, 1), Rotation::Up),
        Factory::new(pos(8, 0), ProductType::Type0),
    );
    let right = scored(
        Mine::new(pos(23, 0), Rotation::Up),
        Factory::new(pos(26, 0), ProductType::Type0),
    );
    assert_eq!((left.run.points, right.run.points), (99, 18));
    let lists = vec![vec![left.clone()], vec![right.clone()]];
    let mut best = None;
    recursive_permutations(&left.sim, &mut best, &lists, 0, 0, 9);
    let both = best.unwrap();
    assert_eq!(both.run.points, 117);
    assert_eq!(both.sim.buildings.iter().len(), 6);
    // a better one stays
    let mut kept = Some(both.clone());
    recursive_permutations(&right.sim, &mut kept, &vec![vec![], vec![]], 1, 0, 9);
    assert_eq!(kept.unwrap().run, both.run);
}

#[test]
fn a_region_without_a_solution_composes_nothing() {
    let left = scored(
        Mine::new(pos(5, 1), Rotation::Up),
        Factory::new(pos(8, 0), ProductType::Type0),
    );
    let lists = vec![vec![left.clone()], vec![]];
    let mut best = None;
    recursive_permutations(&left.sim, &mut best, &lists, 0, 0, 9);
    assert!(best.is_none());
    // with no solution to take from a region, none is taken
    let mut best = None;
    recursive_permutations(&left.sim, &mut best, &vec![vec![left.clone()], vec![left.clone()]], 0, 0, 0);
    assert!(best.is_none());
}
