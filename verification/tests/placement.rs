use profit::board::Board;
use profit::building::{Building, Conveyor, Deposit, Factory, Mine, Obstacle};
use profit::error::Error;
use profit::geometry::{pos, Cell, Id, Rotation};
use profit::placement::{place_building, remove_building};
use profit::resources::{ProductType, Products, ResourceType};
use profit::scene::Sim;

const TURNS: u32 = 100;
const TIME: u32 = 100;

fn scene(width: i8, height: i8) -> Sim {
    Sim::new(Products::default(), Board::new(width, height), TURNS, TIME)
}

fn mine_board(rotation: Rotation) -> Board {
    let mut sim = scene(10, 10);
    let building = Building::Mine(Mine::new(pos(3, 3), rotation));
    assert_eq!(place_building(&mut sim, building), Ok(Id(0)));
    sim.board
}

fn mine_core(id: Id) -> Board {
    let mut expected = Board::new(10, 10);
    expected.set(pos(3, 3), Some(Cell::inert(id)));
    expected.set(pos(3, 4), Some(Cell::inert(id)));
    expected.set(pos(4, 3), Some(Cell::inert(id)));
    expected.set(pos(4, 4), Some(Cell::inert(id)));
    expected
}

fn expect_up() -> Board {
    let id = Id(0);
    let mut expected = mine_core(id);
    expected.set(pos(2, 4), Some(Cell::input(id)));
    expected.set(pos(5, 4), Some(Cell::output(id)));
    expected
}

fn expect_right() -> Board {
    let id = Id(0);
    let mut expected = mine_core(id);
    expected.set(pos(3, 2), Some(Cell::input(id)));
    expected.set(pos(3, 5), Some(Cell::output(id)));
    expected
}

fn expect_down() -> Board {
    let id = Id(0);
    let mut expected = mine_core(id);
    expected.set(pos(5, 3), Some(Cell::input(id)));
    expected.set(pos(2, 3), Some(Cell::output(id)));
    expected
}

fn expect_left() -> Board {
    let id = Id(0);
    let mut expected = mine_core(id);
    expected.set(pos(4, 5), Some(Cell::input(id)));
    expected.set(pos(4, 2), Some(Cell::output(id)));
    expected
}

#[test]
fn place_mine_rotated_up() {
    assert_eq!(mine_board(Rotation::Up), expect_up());
}

#[test]
fn place_mine_rotated_right() {
    assert_eq!(mine_board(Rotation::Right), expect_right());
}

#[test]
fn place_mine_rotated_down() {
    assert_eq!(mine_board(Rotation::Down), expect_down());
}

#[test]
fn place_mine_rotated_left() {
    assert_eq!(mine_board(Rotation::Left), expect_left());
}

#[test]
fn test_place_mine_rotated_up() {
    let mut sim = scene(10, 10);
    let building = Building::Mine(Mine::new(pos(3, 3), Rotation::Up));
    place_building(&mut sim, building).unwrap();
    assert_eq!(sim.board, expect_up());
    assert_eq!(sim.buildings.values, vec![Some(building)]);
    assert!(sim.connections.is_empty());
}

#[test]
fn test_place_mine_rotated_right() {
    let mut sim = scene(10, 10);
    let building = Building::Mine(Mine::new(pos(3, 3), Rotation::Right));
    place_building(&mut sim, building).unwrap();
    assert_eq!(sim.board, expect_right());
}

#[test]
fn test_place_mine_rotated_down() {
    let mut sim = scene(10, 10);
    let building = Building::Mine(Mine::new(pos(3, 3), Rotation::Down));
    place_building(&mut sim, building).unwrap();
    assert_eq!(sim.board, expect_down());
}

#[test]
fn test_place_mine_rotated_left() {
    let mut sim = scene(10, 10);
    let building = Building::Mine(Mine::new(pos(3, 3), Rotation::Left));
    place_building(&mut sim, building).unwrap();
    assert_eq!(sim.board, expect_left());
}

#[test]
fn lib_place_mine_rotated_up() {
    let board = mine_board(Rotation::Up);
    let id = Id(0);
    assert_eq!(board.get(pos(3, 3)), Some(Some(Cell::inert(id))));
    assert_eq!(board.get(pos(4, 3)), Some(Some(Cell::inert(id))));
    assert_eq!(board.get(pos(3, 4)), Some(Some(Cell::inert(id))));
    assert_eq!(board.get(pos(4, 4)), Some(Some(Cell::inert(id))));
    assert_eq!(board.get(pos(2, 4)), Some(Some(Cell::input(id))));
    assert_eq!(board.get(pos(5, 4)), Some(Some(Cell::output(id))));
    assert_eq!(board, expect_up());
}

#[test]
fn lib_place_mine_rotated_right() {
    let board = mine_board(Rotation::Right);
    let id = Id(0);
    assert_eq!(board.get(pos(3, 2)), Some(Some(Cell::input(id))));
    assert_eq!(board.get(pos(3, 5)), Some(Some(Cell::output(id))));
    assert_eq!(board, expect_right());
}

#[test]
fn main_place_mine_rotated_up() {
    let board = mine_board(Rotation::Up);
    let occupied = board.cells.iter().filter(|c| c.is_some()).count();
    assert_eq!(occupied, 6);
    assert_eq!(board, expect_up());
}

#[test]
fn main_place_mine_rotated_right() {
    let board = mine_board(Rotation::Right);
    let occupied = board.cells.iter().filter(|c| c.is_some()).count();
    assert_eq!(occupied, 6);
    assert_eq!(board, expect_right());
}

#[test]
fn failing_to_place_conveyor_doesnt_remove_part_of_existing_conveyor_1() {
    let mut sim = scene(10, 10);

    let building = Building::Conveyor(Conveyor::new(pos(4, 4), Rotation::Up, false));
    place_building(&mut sim, building).unwrap();

    let building = Building::Conveyor(Conveyor::new(pos(4, 4), Rotation::Down, true));
    place_building(&mut sim, building).unwrap_err();

    let id = Id(0);
    let mut expected = Board::new(10, 10);
    expected.set(pos(3, 4), Some(Cell::input(id)));
    expected.set(pos(4, 4), Some(Cell::inert(id)));
    expected.set(pos(5, 4), Some(Cell::output(id)));
    assert_eq!(sim.board, expected);
}

#[test]
fn failing_to_place_conveyor_doesnt_remove_part_of_existing_conveyor_2() {
    let mut sim = scene(20, 20);

    let building = Building::Conveyor(Conveyor::new(pos(13, 15), Rotation::Left, false));
    place_building(&mut sim, building).unwrap();
    let building = Building::Conveyor(Conveyor::new(pos(14, 15), Rotation::Right, false));
    place_building(&mut sim, building).unwrap();

    let expected = sim.board.clone();

    let building = Building::Conveyor(Conveyor::new(pos(13, 15), Rotation::Down, false));
    place_building(&mut sim, building).unwrap_err();

    assert_eq!(sim.board, expected);
}

#[test]
fn place_conveyor_removes_part_of_existing_conveyor() {
    let mut sim = scene(40, 40);

    let building = Building::Conveyor(Conveyor::new(pos(22, 35), Rotation::Down, true));
    place_building(&mut sim, building).unwrap();
    let building = Building::Conveyor(Conveyor::new(pos(18, 35), Rotation::Down, true));
    place_building(&mut sim, building).unwrap();
    let building = Building::Conveyor(Conveyor::new(pos(16, 33), Rotation::Left, true));
    place_building(&mut sim, building).unwrap();
    let building = Building::Conveyor(Conveyor::new(pos(19, 35), Rotation::Left, true));
    place_building(&mut sim, building).unwrap();

    let expected = sim.board.clone();

    let building = Building::Conveyor(Conveyor::new(pos(18, 35), Rotation::Right, false));
    let id = place_building(&mut sim, building).unwrap();
    remove_building(&mut sim, id);

    assert_eq!(sim.board, expected);
}

#[test]
fn two_ingresses_at_one_egress() {
    let mut sim = scene(10, 10);

    let building = Building::Deposit(Deposit::new(pos(0, 0), 2, 2, ResourceType::Type0));
    place_building(&mut sim, building).unwrap();

    let building = Building::Mine(Mine::new(pos(3, 0), Rotation::Up));
    place_building(&mut sim, building).unwrap();

    let building = Building::Mine(Mine::new(pos(1, 3), Rotation::Right));
    let res = place_building(&mut sim, building);

    assert_eq!(res, Err(Error::MultipleIngresses(pos(1, 1))));
}

#[test]
fn a_failed_placement_leaves_the_scene_as_it_was() {
    let mut sim = scene(10, 10);
    place_building(&mut sim, Building::Deposit(Deposit::new(pos(0, 0), 2, 2, ResourceType::Type0)))
        .unwrap();
    place_building(&mut sim, Building::Mine(Mine::new(pos(3, 0), Rotation::Up))).unwrap();
    let before = sim.clone();
    let res = place_building(&mut sim, Building::Mine(Mine::new(pos(1, 3), Rotation::Right)));
    assert!(res.is_err());
    assert_eq!(sim, before);
}

#[test]
fn off_board_placement_is_out_of_bounds() {
    let mut sim = scene(10, 10);
    let res = place_building(&mut sim, Building::Mine(Mine::new(pos(0, 0), Rotation::Up)));
    assert_eq!(res, Err(Error::OutOfBounds(pos(-1, 1))));
    let res = place_building(&mut sim, Building::Factory(Factory::new(pos(6, 6), ProductType::Type0)));
    assert_eq!(res, Err(Error::OutOfBounds(pos(10, 6))));
    let res = place_building(&mut sim, Building::Obstacle(Obstacle::new(pos(-1, 0), 2, 2)));
    assert_eq!(res, Err(Error::OutOfBounds(pos(-1, 0))));
    assert_eq!(sim, scene(10, 10));
}

#[test]
fn only_inert_conveyor_cells_may_cross() {
    let mut sim = scene(10, 10);
    place_building(&mut sim, Building::Conveyor(Conveyor::new(pos(4, 4), Rotation::Up, false)))
        .unwrap();
    // inert on inert: a crossing
    let crossing = Building::Conveyor(Conveyor::new(pos(4, 4), Rotation::Right, false));
    assert_eq!(place_building(&mut sim, crossing), Ok(Id(1)));
    assert_eq!(sim.board.get(pos(4, 4)), Some(Some(Cell::inert(Id(1)))));
    // input on inert
    let res = place_building(&mut sim, Building::Conveyor(Conveyor::new(pos(6, 3), Rotation::Right, false)));
    assert_eq!(res, Ok(Id(2)));
    let res = place_building(&mut sim, Building::Conveyor(Conveyor::new(pos(5, 4), Rotation::Up, false)));
    assert_eq!(res, Err(Error::Intersection(pos(4, 4))));
    // a mine on a conveyor
    let res = place_building(&mut sim, Building::Mine(Mine::new(pos(4, 4), Rotation::Up)));
    assert_eq!(res, Err(Error::Intersection(pos(4, 4))));
}

#[test]
fn deposits_feed_mines_only() {
    let mut sim = scene(20, 10);
    place_building(&mut sim, Building::Deposit(Deposit::new(pos(0, 0), 2, 2, ResourceType::Type0)))
        .unwrap();
    let res = place_building(&mut sim, Building::Conveyor(Conveyor::new(pos(3, 0), Rotation::Up, false)));
    assert_eq!(res, Err(Error::DepositEgress(pos(2, 0))));
    let res = place_building(&mut sim, Building::Factory(Factory::new(pos(2, 0), ProductType::Type0)));
    assert_eq!(res, Err(Error::DepositEgress(pos(2, 0))));
}

#[test]
fn mines_do_not_feed_mines() {
    let mut sim = scene(20, 10);
    place_building(&mut sim, Building::Mine(Mine::new(pos(1, 1), Rotation::Up))).unwrap();
    let res = place_building(&mut sim, Building::Mine(Mine::new(pos(5, 1), Rotation::Up)));
    assert_eq!(res, Err(Error::MineEgress(pos(3, 2))));
}

#[test]
fn removal_frees_cells_connections_and_identifier() {
    let mut sim = scene(20, 10);
    let d = place_building(&mut sim, Building::Deposit(Deposit::new(pos(0, 0), 4, 4, ResourceType::Type0)))
        .unwrap();
    let m = place_building(&mut sim, Building::Mine(Mine::new(pos(5, 1), Rotation::Up))).unwrap();
    let f = place_building(&mut sim, Building::Factory(Factory::new(pos(8, 0), ProductType::Type0)))
        .unwrap();
    assert_eq!((d, m, f), (Id(0), Id(1), Id(2)));
    assert_eq!(sim.connections.len(), 2);
    assert_eq!(sim.connections[0].output_pos, pos(3, 2));
    assert_eq!(sim.connections[0].input_pos, pos(4, 2));
    assert_eq!(sim.connections[1].output_pos, pos(7, 2));
    assert_eq!(sim.connections[1].input_pos, pos(8, 2));

    let removed = remove_building(&mut sim, m);
    assert_eq!(removed, Building::Mine(Mine::new(pos(5, 1), Rotation::Up)));
    assert!(sim.connections.is_empty());
    assert!(sim.board.cells.iter().all(|c| c.map_or(true, |c| c.id != m)));
    assert_eq!(sim.buildings.values[1], None);
    // the freed identifier is handed out again
    let again = place_building(&mut sim, Building::Mine(Mine::new(pos(5, 5), Rotation::Up))).unwrap();
    assert_eq!(again, m);
}
