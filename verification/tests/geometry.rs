use profit::board::Board;
use profit::building::{Building, Buildings, Conveyor, Deposit, Mine};
use profit::geometry::{index_rotated, pos, Cell, CellKind, Id, Pos, Rotation};
use profit::placement::{check_adjacent_cells, place_building, place_cell, remove_building};
use profit::resources::{Products, ResourceType, Resources};
use profit::scene::{Connection, Sim};

#[test]
fn positions_add_and_turn() {
    assert_eq!(pos(3, -4), Pos::new(3, -4));
    assert_eq!(pos(3, -4).add(pos(-5, 6)), pos(-2, 2));
    assert_eq!(pos(3, -4).sub(pos(-5, 6)), pos(8, -10));
    assert_eq!(pos(3, -4).manhattan_len(), 7);
    assert_eq!(pos(-100, 100).manhattan_len(), 200);
    assert_eq!(pos(3, -4).rot_90(), pos(-4, -3));
    assert_eq!(pos(3, -4).rot_90().rot_90().rot_90().rot_90(), pos(3, -4));
}

#[test]
fn rotations_have_a_row_and_a_code() {
    for (rotation, row, code) in [
        (Rotation::Up, 0, 3),
        (Rotation::Right, 1, 0),
        (Rotation::Down, 2, 1),
        (Rotation::Left, 3, 2),
    ] {
        assert_eq!(rotation.index(), row);
        assert_eq!(Rotation::from_index(row), rotation);
        assert_eq!(rotation.code(), code);
        assert_eq!(Rotation::from_code(code), Some(rotation));
        assert_eq!(rotation.is_vertical(), row % 2 == 1);
        assert_eq!(rotation.is_horizontal(), row % 2 == 0);
    }
    assert_eq!(Rotation::from_code(4), None);
}

#[test]
fn cells_are_made_with_their_role() {
    let id = Id(7);
    assert_eq!(Cell::input(id), Cell::new(CellKind::Input, id));
    assert_eq!(Cell::output(id), Cell::new(CellKind::Output, id));
    assert_eq!(Cell::inert(id), Cell::new(CellKind::Inert, id));
    let grid = Cell::mine(id);
    assert_eq!(grid[2], [Some(Cell::input(id)), Some(Cell::inert(id)), Some(Cell::inert(id)), Some(Cell::output(id))]);
    assert_eq!(grid[1], [None, Some(Cell::inert(id)), Some(Cell::inert(id)), None]);
    assert_eq!(grid[0], [None; 4]);
    assert_eq!(index_rotated(&grid, 0, 2, Rotation::Up), Some(Cell::input(id)));
    assert_eq!(index_rotated(&grid, 1, 0, Rotation::Right), Some(Cell::input(id)));
    assert_eq!(index_rotated(&grid, 3, 1, Rotation::Down), Some(Cell::input(id)));
    assert_eq!(index_rotated(&grid, 2, 3, Rotation::Left), Some(Cell::input(id)));
}

#[test]
fn a_board_is_clamped_and_blank() {
    let board = Board::new(120, -3);
    assert_eq!((board.width, board.height, board.cells.len()), (100, 0, 0));
    let mut board = Board::new(4, 3);
    assert_eq!(board.cells, vec![None; 12]);
    assert_eq!(board.get(pos(3, 2)), Some(None));
    assert_eq!(board.get(pos(4, 2)), None);
    assert_eq!(board.get(pos(0, -1)), None);
    board.set(pos(3, 2), Some(Cell::inert(Id(1))));
    assert_eq!(board.cell(pos(3, 2)), Some(Cell::inert(Id(1))));
    assert_eq!(board.cells[11], Some(Cell::inert(Id(1))));
}

#[test]
fn identifiers_are_reused() {
    let mine = |x| Building::Mine(Mine::new(pos(x, 0), Rotation::Up));
    let mut buildings = Buildings::new();
    assert_eq!(buildings.push(mine(0)), Id(0));
    assert_eq!(buildings.push(mine(1)), Id(1));
    assert_eq!(buildings.push(mine(2)), Id(2));
    assert_eq!(buildings.remove(Id(1)), mine(1));
    assert!(!buildings.contains(Id(1)));
    assert_eq!(buildings.next_slot(), 1);
    assert_eq!(buildings.iter(), vec![(Id(0), mine(0)), (Id(2), mine(2))]);
    assert_eq!(buildings.push(mine(3)), Id(1));
    assert_eq!(buildings.get(Id(1)), mine(3));
    assert_eq!(buildings.push(mine(4)), Id(3));
}

#[test]
fn footprints_list_their_cells_and_neighbours() {
    let deposit = Building::Deposit(Deposit::new(pos(2, 3), 3, 2, ResourceType::Type0));
    assert_eq!(deposit.pos(), pos(2, 3));
    assert_eq!(deposit.cell_count(), 6);
    assert_eq!(deposit.cell(0), (pos(2, 3), CellKind::Output));
    assert_eq!(deposit.cell(4), (pos(3, 4), CellKind::Output));
    assert_eq!(deposit.probe_count(), 10);
    assert_eq!(deposit.probe(0), (pos(2, 2), pos(2, 3)));
    assert_eq!(deposit.probe(3), (pos(1, 3), pos(2, 3)));
    assert_eq!(deposit.probe(4), (pos(5, 3), pos(4, 3)));
    assert_eq!(deposit.probe(9), (pos(4, 5), pos(4, 4)));
    assert!(deposit.representable());
    let conveyor = Building::Conveyor(Conveyor::new(pos(5, 5), Rotation::Left, true));
    assert_eq!(conveyor.cell_count(), 4);
    assert_eq!(conveyor.cell(0), (pos(5, 4), CellKind::Output));
    assert_eq!(conveyor.cell(3), (pos(5, 7), CellKind::Input));
    assert_eq!(conveyor.probe(5), (pos(5, 8), pos(5, 7)));
    assert!(!Building::Mine(Mine::new(pos(125, 0), Rotation::Up)).representable());
    assert!(!Building::Deposit(Deposit::new(pos(100, 0), 28, 1, ResourceType::Type0)).representable());
}

#[test]
fn resources_are_counted_slot_by_slot() {
    let a = Resources::new([1, 2, 3, 4, 5, 6, 7, 8]);
    let b = Resources::new([8, 0, 1, 0, 5, 9, 0, 2]);
    assert_eq!(a.add(&b), Resources::new([9, 2, 4, 4, 10, 15, 7, 10]));
    assert_eq!(a.checked_add(&b), Some(a.add(&b)));
    assert_eq!(a.checked_add(&Resources::new([0, 65534, 0, 0, 0, 0, 0, 0])), None);
    assert_eq!(a.saturating_sub(&b), Resources::new([0, 2, 2, 4, 0, 0, 7, 6]));
    assert_eq!(a.mul(&b), Resources::new([8, 0, 3, 0, 25, 54, 0, 16]));
    assert_eq!(a.div(&b), Resources::new([0, 65535, 3, 65535, 1, 0, 65535, 4]));
    assert_eq!(a.min(), 1);
    assert_eq!(b.min(), 0);
    assert_eq!(a.iter(), vec![1, 2, 3, 4, 5, 6, 7, 8]);
    assert!(a.has_at_least(&Resources::new([1, 2, 3, 0, 0, 0, 0, 8])));
    assert!(!a.has_at_least(&b));
    assert!(Resources::default().is_empty());
    assert!(!b.is_empty());
    assert_eq!(Resources::splat(3), Resources::new([3; 8]));
    assert_eq!(Resources::single(ResourceType::Type2, 9), Resources::new([0, 0, 9, 0, 0, 0, 0, 0]));
    assert_eq!(a.get(ResourceType::Type7), 8);
    let mut c = a;
    c.credit(ResourceType::Type0, 65535);
    c.debit(ResourceType::Type1, 5);
    c.debit(ResourceType::Type2, 1);
    assert_eq!(c, Resources::new([65535, 0, 2, 4, 5, 6, 7, 8]));
    assert_eq!(Products::default().iter().len(), 8);
}

#[test]
fn cells_and_connections_are_made_one_by_one() {
    let mut sim = Sim::new(Products::default(), Board::new(10, 10), 10, 10);
    let a = sim.buildings.push(Building::Conveyor(Conveyor::new(pos(2, 2), Rotation::Up, false)));
    let b = sim.buildings.push(Building::Conveyor(Conveyor::new(pos(5, 2), Rotation::Up, false)));
    assert_eq!(place_cell(&mut sim, pos(3, 2), Cell::output(a)), Ok(()));
    assert_eq!(place_cell(&mut sim, pos(4, 2), Cell::input(b)), Ok(()));
    assert_eq!(
        place_cell(&mut sim, pos(4, 2), Cell::inert(a)),
        Err(profit::error::Error::Intersection(pos(4, 2)))
    );
    assert_eq!(
        place_cell(&mut sim, pos(10, 2), Cell::inert(a)),
        Err(profit::error::Error::OutOfBounds(pos(10, 2)))
    );
    // nothing to join with an empty cell
    assert_eq!(check_adjacent_cells(&mut sim, pos(3, 2), pos(3, 3)), Ok(()));
    assert!(sim.connections.is_empty());
    assert_eq!(check_adjacent_cells(&mut sim, pos(4, 2), pos(3, 2)), Ok(()));
    assert_eq!(sim.connections, vec![Connection::new(a, pos(3, 2), b, pos(4, 2))]);
    assert_eq!(
        check_adjacent_cells(&mut sim, pos(3, 2), pos(4, 2)),
        Err(profit::error::Error::MultipleIngresses(pos(3, 2)))
    );
    assert!(sim.is_consistent());
    sim.board.set(pos(0, 0), Some(Cell::inert(Id(9))));
    assert!(!sim.is_consistent());
}

#[test]
fn a_removed_conveyor_gives_a_crossing_back() {
    let mut sim = Sim::new(Products::default(), Board::new(10, 10), 10, 10);
    let a = place_building(&mut sim, Building::Conveyor(Conveyor::new(pos(4, 4), Rotation::Up, false)))
        .unwrap();
    let before = sim.clone();
    let b = place_building(&mut sim, Building::Conveyor(Conveyor::new(pos(4, 4), Rotation::Right, false)))
        .unwrap();
    assert_eq!(sim.board.get(pos(4, 4)), Some(Some(Cell::inert(b))));
    remove_building(&mut sim, b);
    assert_eq!(sim.board, before.board);
    assert_eq!(sim.board.get(pos(4, 4)), Some(Some(Cell::inert(a))));
    assert!(sim.is_consistent());
}
