use profit::board::Board;
use profit::building::{Building, Combiner, Conveyor, Deposit, Factory, Mine, Obstacle};
use profit::dto::{sim_from_task, ObjectKind, Product, Solution, SolutionObject, Task, TaskObject};
use profit::error::{Error, IoError};
use profit::geometry::{pos, Rotation};
use profit::placement::place_building;
use profit::resources::{ProductType, Products, ResourceType, Resources};
use profit::scene::Sim;

fn object(kind: ObjectKind, subtype: u8, x: i8, y: i8, width: u8, height: u8) -> TaskObject {
    TaskObject { kind, subtype, x, y, width, height }
}

fn task_001() -> Task {
    Task {
        width: 30,
        height: 20,
        objects: vec![
            object(ObjectKind::Deposit, 0, 1, 1, 5, 5),
            object(ObjectKind::Deposit, 1, 1, 14, 5, 5),
            object(ObjectKind::Deposit, 2, 22, 1, 7, 7),
            object(ObjectKind::Obstacle, 0, 11, 9, 19, 2),
            object(ObjectKind::Obstacle, 0, 11, 1, 2, 8),
        ],
        products: vec![Product { subtype: 0, resources: [3, 3, 3, 0, 0, 0, 0, 0], points: 10 }],
        turns: 50,
        time: 300,
    }
}

#[test]
fn a_task_becomes_the_scene_it_describes() {
    let sim = sim_from_task(&task_001()).unwrap();

    let expected = {
        let mut products = Products::default();
        products.set(
            ProductType::Type0,
            profit::resources::Product::new(Resources::new([3, 3, 3, 0, 0, 0, 0, 0]), 10),
        );
        let mut sim = Sim::new(products, Board::new(30, 20), 50, 300);
        for building in [
            Building::Deposit(Deposit::new(pos(1, 1), 5, 5, ResourceType::Type0)),
            Building::Deposit(Deposit::new(pos(1, 14), 5, 5, ResourceType::Type1)),
            Building::Deposit(Deposit::new(pos(22, 1), 7, 7, ResourceType::Type2)),
            Building::Obstacle(Obstacle::new(pos(11, 9), 19, 2)),
            Building::Obstacle(Obstacle::new(pos(11, 1), 2, 8)),
        ] {
            place_building(&mut sim, building).unwrap();
        }
        sim
    };

    assert_eq!(sim, expected);
    assert!(sim.is_consistent());
}

#[test]
fn subtypes_name_rotations_and_sizes() {
    let mine = |s| object(ObjectKind::Mine, s, 3, 4, 0, 0).to_building();
    assert_eq!(mine(0), Ok(Building::Mine(Mine::new(pos(3, 4), Rotation::Right))));
    assert_eq!(mine(1), Ok(Building::Mine(Mine::new(pos(3, 4), Rotation::Down))));
    assert_eq!(mine(2), Ok(Building::Mine(Mine::new(pos(3, 4), Rotation::Left))));
    assert_eq!(mine(3), Ok(Building::Mine(Mine::new(pos(3, 4), Rotation::Up))));
    assert_eq!(mine(4), Err(IoError::UnknownMineSubtype(4)));

    let conveyor = |s| object(ObjectKind::Conveyor, s, 3, 4, 0, 0).to_building();
    assert_eq!(conveyor(1), Ok(Building::Conveyor(Conveyor::new(pos(3, 4), Rotation::Down, false))));
    assert_eq!(conveyor(4), Ok(Building::Conveyor(Conveyor::new(pos(3, 4), Rotation::Right, true))));
    assert_eq!(conveyor(7), Ok(Building::Conveyor(Conveyor::new(pos(3, 4), Rotation::Up, true))));
    assert_eq!(conveyor(8), Err(IoError::UnknownConveyorSubtype(8)));

    let combiner = |s| object(ObjectKind::Combiner, s, 3, 4, 0, 0).to_building();
    assert_eq!(combiner(2), Ok(Building::Combiner(Combiner::new(pos(3, 4), Rotation::Left))));
    assert_eq!(combiner(9), Err(IoError::UnknownCombinerSubtype(9)));

    let factory = |s| object(ObjectKind::Factory, s, 3, 4, 0, 0).to_building();
    assert_eq!(factory(7), Ok(Building::Factory(Factory::new(pos(3, 4), ProductType::Type7))));
    assert_eq!(factory(8), Err(IoError::UnknownFactorySubtype(8)));

    let deposit = |s| object(ObjectKind::Deposit, s, 3, 4, 2, 6).to_building();
    assert_eq!(deposit(5), Ok(Building::Deposit(Deposit::new(pos(3, 4), 2, 6, ResourceType::Type5))));
    assert_eq!(deposit(8), Err(IoError::UnknownDepositSubtype(8)));

    let obstacle = object(ObjectKind::Obstacle, 200, 3, 4, 2, 6).to_building();
    assert_eq!(obstacle, Ok(Building::Obstacle(Obstacle::new(pos(3, 4), 2, 6))));
}

#[test]
fn a_solution_object_reads_back_as_the_building() {
    let buildings = [
        Building::Mine(Mine::new(pos(19, 3), Rotation::Left)),
        Building::Mine(Mine::new(pos(5, 12), Rotation::Up)),
        Building::Conveyor(Conveyor::new(pos(11, 0), Rotation::Right, true)),
        Building::Conveyor(Conveyor::new(pos(14, 1), Rotation::Down, false)),
        Building::Conveyor(Conveyor::new(pos(9, 4), Rotation::Up, true)),
        Building::Combiner(Combiner::new(pos(9, 1), Rotation::Up)),
        Building::Factory(Factory::new(pos(13, 3), ProductType::Type0)),
    ];
    let expected = [
        (ObjectKind::Mine, 2),
        (ObjectKind::Mine, 3),
        (ObjectKind::Conveyor, 4),
        (ObjectKind::Conveyor, 1),
        (ObjectKind::Conveyor, 7),
        (ObjectKind::Combiner, 3),
        (ObjectKind::Factory, 0),
    ];
    for (building, (kind, subtype)) in buildings.iter().zip(expected) {
        let object = SolutionObject::from_building(building).unwrap();
        assert_eq!((object.kind, object.subtype), (kind, subtype));
        assert_eq!(object.to_task_object().to_building(), Ok(*building));
    }
    assert_eq!(
        SolutionObject::from_building(&Building::Deposit(Deposit::new(pos(0, 0), 1, 1, ResourceType::Type0))),
        None
    );
    assert_eq!(SolutionObject::from_building(&Building::Obstacle(Obstacle::new(pos(0, 0), 1, 1))), None);
}

#[test]
fn a_solution_holds_what_the_solver_built() {
    let mut sim = sim_from_task(&task_001()).unwrap();
    place_building(&mut sim, Building::Mine(Mine::new(pos(7, 1), Rotation::Up))).unwrap();
    place_building(&mut sim, Building::Factory(Factory::new(pos(14, 12), ProductType::Type0))).unwrap();
    let solution = Solution::from_sim(&sim);
    assert_eq!(
        solution.objects,
        vec![
            SolutionObject { kind: ObjectKind::Mine, subtype: 3, x: 7, y: 1 },
            SolutionObject { kind: ObjectKind::Factory, subtype: 0, x: 14, y: 12 },
        ]
    );
}

#[test]
fn a_task_with_a_bad_object_is_rejected() {
    let mut task = task_001();
    task.products.push(Product { subtype: 8, resources: [0; 8], points: 1 });
    assert_eq!(sim_from_task(&task), Err(Error::Io(IoError::UnknownProductSubtype(8))));

    let mut task = task_001();
    task.objects.push(object(ObjectKind::Mine, 6, 8, 8, 0, 0));
    assert_eq!(sim_from_task(&task), Err(Error::Io(IoError::UnknownMineSubtype(6))));

    let mut task = task_001();
    task.objects.push(object(ObjectKind::Obstacle, 0, 5, 5, 2, 2));
    assert_eq!(sim_from_task(&task), Err(Error::Intersection(pos(5, 5))));

    let mut task = task_001();
    task.objects.push(object(ObjectKind::Obstacle, 0, 28, 0, 3, 1));
    assert_eq!(sim_from_task(&task), Err(Error::OutOfBounds(pos(30, 0))));

    let mut task = task_001();
    task.objects.push(object(ObjectKind::Obstacle, 0, 100, 0, 100, 1));
    assert_eq!(sim_from_task(&task), Err(Error::OutOfBounds(pos(100, 0))));

    let mut task = task_001();
    task.objects.push(object(ObjectKind::Factory, 0, 6, 1, 0, 0));
    assert_eq!(sim_from_task(&task), Err(Error::DepositEgress(pos(6, 1))));
}
