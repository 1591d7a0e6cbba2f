use profit::board::Board;
use profit::building::{Building, Deposit, Obstacle};
use profit::geometry::{pos, Id, Pos};
use profit::placement::place_building;
use profit::region::{find_regions, Regions, Visited};
use profit::resources::{Products, ResourceType};
use profit::scene::Sim;

const TURNS: u32 = 100;
const TIME: u32 = 100;

fn sort_cells(regions: &mut Regions) {
    for i in 0..regions.len() {
        let start = regions.indices[i].1;
        let end = if i + 1 < regions.len() { regions.indices[i + 1].1 } else { regions.cells.len() };
        regions.cells[start..end].sort_by(|a: &Pos, b: &Pos| (a.y, a.x).cmp(&(b.y, b.x)));
    }
}

#[test]
fn find_two_regions() {
    let mut sim = Sim::new(Products::default(), Board::new(6, 6), TURNS, TIME);
    place_building(&mut sim, Building::Obstacle(Obstacle::new(pos(3, 0), 1, 6))).unwrap();

    let mut regions = find_regions(&sim);
    sort_cells(&mut regions);

    let expected = Regions {
        deposits: vec![],
        cells: vec![
            // first
            pos(0, 0), pos(1, 0), pos(2, 0),
            pos(0, 1), pos(1, 1), pos(2, 1),
            pos(0, 2), pos(1, 2), pos(2, 2),
            pos(0, 3), pos(1, 3), pos(2, 3),
            pos(0, 4), pos(1, 4), pos(2, 4),
            pos(0, 5), pos(1, 5), pos(2, 5),
            // second
            pos(4, 0), pos(5, 0),
            pos(4, 1), pos(5, 1),
            pos(4, 2), pos(5, 2),
            pos(4, 3), pos(5, 3),
            pos(4, 4), pos(5, 4),
            pos(4, 5), pos(5, 5),
        ],
        indices: vec![(0, 0), (0, 18)],
    };

    assert_eq!(regions, expected);
}

#[test]
fn a_deposit_belongs_to_every_region_it_touches() {
    // a wall with a deposit in it splits the board
    let mut sim = Sim::new(Products::default(), Board::new(7, 4), TURNS, TIME);
    place_building(&mut sim, Building::Obstacle(Obstacle::new(pos(3, 0), 1, 1))).unwrap();
    let d = place_building(&mut sim, Building::Deposit(Deposit::new(pos(3, 1), 1, 2, ResourceType::Type0)))
        .unwrap();
    place_building(&mut sim, Building::Obstacle(Obstacle::new(pos(3, 3), 1, 1))).unwrap();
    assert_eq!(d, Id(1));

    let regions = find_regions(&sim);
    assert_eq!(regions.len(), 2);
    let left = regions.get(0);
    let right = regions.get(1);
    assert_eq!(left.deposits, vec![d]);
    assert_eq!(right.deposits, vec![d]);
    assert_eq!(left.cells.len(), 12);
    assert_eq!(right.cells.len(), 12);
    assert!(left.cells.iter().all(|c| c.x < 3));
    assert!(right.cells.iter().all(|c| c.x > 3));
    assert_eq!(regions.iter(), vec![left, right]);
}

#[test]
fn a_full_board_has_no_region() {
    let mut sim = Sim::new(Products::default(), Board::new(3, 3), TURNS, TIME);
    place_building(&mut sim, Building::Obstacle(Obstacle::new(pos(0, 0), 3, 3))).unwrap();
    let regions = find_regions(&sim);
    assert_eq!(regions.len(), 0);
    assert!(regions.cells.is_empty());
}

#[test]
fn regions_start_where_the_lists_end() {
    let mut regions = Regions::new();
    regions.new_region();
    regions.cells.push(pos(1, 1));
    regions.deposits.push(Id(7));
    regions.new_region();
    regions.cells.push(pos(2, 2));
    assert_eq!(regions.indices, vec![(0, 0), (1, 1)]);
    assert_eq!(regions.get(0).cells, vec![pos(1, 1)]);
    assert_eq!(regions.get(0).deposits, vec![Id(7)]);
    assert_eq!(regions.get(1).cells, vec![pos(2, 2)]);
    assert!(regions.get(1).deposits.is_empty());
}

#[test]
fn visited_flags_are_kept_per_cell() {
    let mut v = Visited::new(4, 3);
    assert_eq!((v.width, v.height, v.cells.len()), (4, 3, 12));
    assert!(!v.get(pos(3, 2)));
    v.set(pos(3, 2), true);
    assert!(v.get(pos(3, 2)));
    assert!(!v.get(pos(2, 2)));
    let clamped = Visited::new(-5, 120);
    assert_eq!((clamped.width, clamped.height), (0, 100));
}

#[test]
fn regions_come_in_the_order_of_a_row_by_row_scan() {
    // a wall splits the board, and a bar splits the left part again
    let mut sim = Sim::new(Products::default(), Board::new(5, 3), TURNS, TIME);
    place_building(&mut sim, Building::Obstacle(Obstacle::new(pos(2, 0), 1, 3))).unwrap();
    place_building(&mut sim, Building::Obstacle(Obstacle::new(pos(0, 1), 2, 1))).unwrap();

    let mut regions = find_regions(&sim);
    // each region starts with the first of its cells that the scan meets
    assert_eq!(regions.indices, vec![(0, 0), (0, 2), (0, 8)]);
    assert_eq!(regions.cells[0], pos(0, 0));
    assert_eq!(regions.cells[2], pos(3, 0));
    assert_eq!(regions.cells[8], pos(0, 2));
    sort_cells(&mut regions);
    let expected = Regions {
        deposits: vec![],
        cells: vec![
            // above the bar
            pos(0, 0), pos(1, 0),
            // right of the wall
            pos(3, 0), pos(4, 0),
            pos(3, 1), pos(4, 1),
            pos(3, 2), pos(4, 2),
            // below the bar
            pos(0, 2), pos(1, 2),
        ],
        indices: vec![(0, 0), (0, 2), (0, 8)],
    };
    assert_eq!(regions, expected);

    // every cell listed lies in a region
    let clusters = profit::cluster::find_clusters(&sim);
    assert_eq!(clusters.len(), 3);
    assert_eq!(clusters.iter().map(|c| c.cells.len()).sum::<usize>(), regions.cells.len());
    assert_eq!(clusters[1].cells[0], pos(3, 0));
    assert!(clusters.iter().all(|c| c.buildings.is_empty()));
}
