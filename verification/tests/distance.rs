use profit::board::Board;
use profit::building::{Building, Deposit, Factory, Obstacle};
use profit::distance::{map_deposit_distances, map_distances, DistanceMap};
use profit::geometry::{pos, FACTORY_SIZE};
use profit::placement::place_building;
use profit::resources::{ProductType, Products, ResourceType};
use profit::scene::Sim;

fn scene(width: i8, height: i8) -> Sim {
    Sim::new(Products::default(), Board::new(width, height), 100, 100)
}

#[test]
fn distances_count_steps_to_the_rim() {
    let mut sim = scene(8, 5);
    place_building(&mut sim, Building::Deposit(Deposit::new(pos(0, 0), 2, 2, ResourceType::Type0)))
        .unwrap();
    let map = map_distances(&sim, pos(0, 0), 2, 2);
    // the deposit's own cells have no entry
    assert_eq!(map.get(pos(0, 0)), Some(None));
    assert_eq!(map.get(pos(1, 1)), Some(None));
    // beside the rectangle
    assert_eq!(map.get(pos(2, 0)), Some(Some(0)));
    assert_eq!(map.get(pos(2, 1)), Some(Some(0)));
    assert_eq!(map.get(pos(0, 2)), Some(Some(0)));
    assert_eq!(map.get(pos(1, 2)), Some(Some(0)));
    // the corner is one step from the rim
    assert_eq!(map.get(pos(2, 2)), Some(Some(1)));
    assert_eq!(map.get(pos(7, 0)), Some(Some(5)));
    assert_eq!(map.get(pos(7, 4)), Some(Some(8)));
    assert_eq!(map.steps(pos(7, 4)), Some(8));
    // off the board
    assert_eq!(map.get(pos(8, 0)), None);
    assert_eq!(map.get(pos(0, -1)), None);
    assert_eq!(map.steps(pos(8, 0)), None);
}

#[test]
fn obstacles_bar_the_way() {
    let mut sim = scene(5, 5);
    // a wall with a gap at the bottom
    place_building(&mut sim, Building::Obstacle(Obstacle::new(pos(2, 0), 1, 4))).unwrap();
    let map = map_distances(&sim, pos(0, 0), 1, 1);
    assert_eq!(map.get(pos(1, 0)), Some(Some(0)));
    assert_eq!(map.get(pos(0, 1)), Some(Some(0)));
    assert_eq!(map.get(pos(2, 0)), Some(None));
    assert_eq!(map.get(pos(2, 4)), Some(Some(5)));
    assert_eq!(map.get(pos(3, 0)), Some(Some(10)));
    // wall the gap up: the right side is out of reach
    place_building(&mut sim, Building::Obstacle(Obstacle::new(pos(2, 4), 1, 1))).unwrap();
    let map = map_distances(&sim, pos(0, 0), 1, 1);
    assert_eq!(map.get(pos(3, 0)), Some(None));
    assert_eq!(map.get(pos(1, 4)), Some(Some(4)));
}

#[test]
fn the_rim_of_a_wide_rectangle_follows_its_width() {
    let mut sim = scene(12, 6);
    place_building(&mut sim, Building::Factory(Factory::new(pos(3, 0), ProductType::Type0))).unwrap();
    let map = map_distances(&sim, pos(3, 0), FACTORY_SIZE as u8, FACTORY_SIZE as u8);
    assert_eq!(map.get(pos(2, 0)), Some(Some(0)));
    assert_eq!(map.get(pos(8, 4)), Some(Some(0)));
    assert_eq!(map.get(pos(5, 5)), Some(Some(0)));
    assert_eq!(map.get(pos(8, 5)), Some(Some(1)));
    assert_eq!(map.get(pos(11, 0)), Some(Some(3)));
    let mut sim = scene(12, 6);
    place_building(&mut sim, Building::Obstacle(Obstacle::new(pos(2, 2), 6, 1))).unwrap();
    let map = map_distances(&sim, pos(2, 2), 6, 1);
    assert_eq!(map.get(pos(8, 2)), Some(Some(0)));
    assert_eq!(map.get(pos(3, 2)), Some(None));
    assert_eq!(map.get(pos(9, 2)), Some(Some(1)));
}

#[test]
fn each_deposit_gets_its_map() {
    let mut sim = scene(10, 10);
    place_building(&mut sim, Building::Deposit(Deposit::new(pos(0, 0), 2, 2, ResourceType::Type0)))
        .unwrap();
    place_building(&mut sim, Building::Obstacle(Obstacle::new(pos(5, 5), 1, 1))).unwrap();
    place_building(&mut sim, Building::Deposit(Deposit::new(pos(8, 8), 2, 2, ResourceType::Type1)))
        .unwrap();
    let maps = map_deposit_distances(&sim);
    assert_eq!(maps.len(), 3);
    assert_eq!(maps[0], Some(map_distances(&sim, pos(0, 0), 2, 2)));
    assert_eq!(maps[1], None);
    assert_eq!(maps[2], Some(map_distances(&sim, pos(8, 8), 2, 2)));
    assert_eq!(maps[2].as_ref().unwrap().get(pos(7, 8)), Some(Some(0)));
}

#[test]
fn a_new_map_has_no_entries() {
    let map = DistanceMap::new(3, 2);
    assert_eq!((map.width, map.height), (3, 2));
    assert_eq!(map.cells, vec![None; 6]);
    let mut map = map;
    map.set(pos(2, 1), Some(4));
    assert_eq!(map.get(pos(2, 1)), Some(Some(4)));
    assert_eq!(map.get(pos(1, 1)), Some(None));
}
