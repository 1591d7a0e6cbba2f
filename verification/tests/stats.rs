use profit::board::Board;
use profit::building::{Building, Deposit, Obstacle};
use profit::distance::map_deposit_distances;
use profit::geometry::{pos, Id};
use profit::placement::place_building;
use profit::region::find_regions;
use profit::resources::{Product, ProductType, Products, ResourceType, Resources};
use profit::scene::Sim;
use profit::stats::{
    available_resources, border_distance, deposit_stats, factory_stats_at, fits, max_points,
    rank_regional_factory_positions, DepositIdx, DepositStats,
};

fn scene(turns: u32) -> Sim {
    let mut products = Products::default();
    products.set(ProductType::Type0, Product::new(Resources::new([7, 0, 0, 0, 0, 0, 0, 0]), 9));
    products.set(ProductType::Type1, Product::new(Resources::new([1, 2, 0, 0, 0, 0, 0, 0]), 50));
    products.set(ProductType::Type3, Product::new(Resources::new([20, 0, 0, 0, 0, 0, 0, 0]), 30));
    products.set(ProductType::Type4, Product::new(Resources::new([1, 0, 0, 0, 0, 0, 0, 0]), 0));
    let mut sim = Sim::new(products, Board::new(20, 10), turns, 100);
    place_building(&mut sim, Building::Deposit(Deposit::new(pos(0, 0), 4, 4, ResourceType::Type0)))
        .unwrap();
    sim
}

#[test]
fn a_region_holds_five_units_per_deposit_cell() {
    let mut sim = scene(100);
    place_building(&mut sim, Building::Deposit(Deposit::new(pos(0, 6), 2, 3, ResourceType::Type0)))
        .unwrap();
    place_building(&mut sim, Building::Deposit(Deposit::new(pos(10, 0), 1, 1, ResourceType::Type6)))
        .unwrap();
    place_building(&mut sim, Building::Obstacle(Obstacle::new(pos(15, 5), 1, 1))).unwrap();
    let available = available_resources(&sim, &vec![Id(0), Id(1), Id(2), Id(3), Id(9)]);
    assert_eq!(available, Resources::new([110, 0, 0, 0, 0, 0, 5, 0]));
    assert_eq!(Deposit::new(pos(0, 0), 255, 255, ResourceType::Type0).capped_resources(), 65535);
}

#[test]
fn points_and_weights_follow_the_recipe() {
    let sim = scene(100);
    let available = Resources::new([80, 0, 0, 0, 0, 0, 0, 0]);
    assert_eq!(max_points(&sim.products.get(ProductType::Type0), &available), 99);
    assert_eq!(max_points(&sim.products.get(ProductType::Type3), &available), 120);
    assert_eq!(max_points(&Product::new(Resources::new([0; 8]), u32::MAX), &available), u32::MAX);
    let stats = deposit_stats(&sim, &sim.products.get(ProductType::Type0), &vec![Id(0)]);
    assert_eq!(
        stats,
        vec![DepositStats { id: Id(0), resource_type: ResourceType::Type0, resources: 80, weight: 560 }]
    );
    let none = deposit_stats(&sim, &Product::new(Resources::new([0, 1, 0, 0, 0, 0, 0, 0]), 1), &vec![Id(0)]);
    assert!(none.is_empty());
}

#[test]
fn a_factory_needs_twentyfive_empty_cells() {
    let sim = scene(100);
    assert!(fits(&sim, pos(4, 0)));
    assert!(fits(&sim, pos(15, 5)));
    assert!(!fits(&sim, pos(3, 0)));
    assert!(!fits(&sim, pos(3, 3)));
    assert!(!fits(&sim, pos(16, 0)));
    assert!(!fits(&sim, pos(0, 6)));
    assert!(!fits(&sim, pos(-1, 5)));
}

#[test]
fn positions_are_judged_by_their_distance_to_the_deposits() {
    let sim = scene(100);
    let maps = map_deposit_distances(&sim);
    let map = maps[0].as_ref().unwrap();
    // right beside the deposit
    assert_eq!(border_distance(map, pos(4, 0)), 0);
    assert_eq!(border_distance(map, pos(6, 0)), 2);
    assert_eq!(border_distance(map, pos(10, 5)), 8);
    let product = sim.products.get(ProductType::Type0);
    let stats = deposit_stats(&sim, &product, &vec![Id(0)]);
    let available = available_resources(&sim, &vec![Id(0)]);
    assert_eq!(factory_stats_at(&sim, &product, &stats, &maps, &available, pos(4, 0)), None);
    assert_eq!(factory_stats_at(&sim, &product, &stats, &maps, &available, pos(3, 4)), None);
    assert_eq!(factory_stats_at(&sim, &product, &stats, &maps, &available, pos(3, 5)).unwrap().dists, vec![1]);
    let f = factory_stats_at(&sim, &product, &stats, &maps, &available, pos(10, 5)).unwrap();
    assert_eq!(f.pos, pos(10, 5));
    assert_eq!(f.deposits_in_reach, vec![DepositIdx { idx: 0 }]);
    assert_eq!(f.dists, vec![8]);
    assert_eq!(f.max_products, 11);
    // with 4 turns the deposit is out of reach: 8 / 4 + 2 = 4 is not below 4
    let sim = scene(4);
    assert_eq!(factory_stats_at(&sim, &product, &stats, &maps, &available, pos(10, 5)), None);
    let sim = scene(5);
    assert!(factory_stats_at(&sim, &product, &stats, &maps, &available, pos(10, 5)).is_some());
}

#[test]
fn products_are_ranked_by_what_the_region_can_score() {
    let sim = scene(100);
    let regions = find_regions(&sim);
    let maps = map_deposit_distances(&sim);
    let ranked = rank_regional_factory_positions(&sim, &regions, &maps);
    assert_eq!(ranked.len(), 1);
    let products = &ranked[0].product_stats;
    // type 1 needs a resource the region lacks, type 4 scores nothing
    assert_eq!(products.len(), 2);
    assert_eq!((products[0].product_type, products[0].max_points), (ProductType::Type3, 120));
    assert_eq!((products[1].product_type, products[1].max_points), (ProductType::Type0, 99));
    assert_eq!(products[1].deposit_stats.len(), 1);
    // the anchors at which 25 cells are free and the deposit is not touched
    let anchors: Vec<_> = products[1].factory_stats.iter().map(|f| f.pos).collect();
    assert!(anchors.contains(&pos(5, 0)));
    assert!(anchors.contains(&pos(15, 5)));
    assert!(!anchors.contains(&pos(4, 0)));
    assert!(!anchors.contains(&pos(0, 4)));
    assert!(!anchors.contains(&pos(16, 0)));
    // 96 anchors on the board, 16 on the deposit, 8 right beside it
    assert_eq!(anchors.len(), 16 * 6 - 16 - 4 - 4);
}

#[test]
fn a_region_that_can_make_nothing_is_left_out() {
    let mut sim = Sim::new(scene(100).products, Board::new(12, 6), 100, 100);
    place_building(&mut sim, Building::Obstacle(Obstacle::new(pos(6, 0), 1, 6))).unwrap();
    place_building(&mut sim, Building::Deposit(Deposit::new(pos(11, 0), 1, 4, ResourceType::Type0)))
        .unwrap();
    let regions = find_regions(&sim);
    assert_eq!(regions.len(), 2);
    let maps = map_deposit_distances(&sim);
    let ranked = rank_regional_factory_positions(&sim, &regions, &maps);
    // only the right region has a deposit; it holds 20 units
    assert_eq!(ranked.len(), 1);
    let products = &ranked[0].product_stats;
    assert_eq!(products.len(), 2);
    assert_eq!((products[0].product_type, products[0].max_points), (ProductType::Type3, 30));
    assert_eq!((products[1].product_type, products[1].max_points), (ProductType::Type0, 18));
    // no room for a factory between the wall and the deposit
    assert!(products[0].factory_stats.is_empty());
}
