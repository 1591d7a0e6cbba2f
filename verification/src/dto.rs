use crate::board::Board;
use crate::building::{Building, Combiner, Conveyor, Deposit, Factory, Mine, Obstacle};
use crate::error::{Error, IoError};
use crate::geometry::{Id, Pos, Rotation};
use crate::placement::{place_building, placed};
use crate::resources::{ProductType, Products, ResourceType, Resources};
use crate::scene::Sim;
use vstd::prelude::*;

verus! {

/// The kind of an object of a task or a solution.
#[derive(Clone, Copy, Debug, PartialEq, Eq, Structural)]
pub enum ObjectKind {
    Deposit,
    Obstacle,
    Mine,
    Conveyor,
    Combiner,
    Factory,
}

/// An object as a task describes it. `width` and `height` are zero where
/// the task gives none.
#[derive(Clone, Copy, Debug, PartialEq, Eq, Structural)]
pub struct TaskObject {
    pub kind: ObjectKind,
    pub subtype: u8,
    pub x: i8,
    pub y: i8,
    pub width: u8,
    pub height: u8,
}

/// A product as a task describes it.
#[derive(Clone, Copy, Debug, PartialEq, Eq)]
pub struct Product {
    pub subtype: u8,
    pub resources: [u16; 8],
    pub points: u32,
}

/// A task: the board, what stands on it, the products and the budgets.
#[derive(Clone, Debug, PartialEq, Eq)]
pub struct Task {
    pub width: i8,
    pub height: i8,
    pub objects: Vec<TaskObject>,
    pub products: Vec<Product>,
    pub turns: u32,
    pub time: u32,
}

/// A building as a solution describes it.
#[derive(Clone, Copy, Debug, PartialEq, Eq, Structural)]
pub struct SolutionObject {
    pub kind: ObjectKind,
    pub subtype: u8,
    pub x: i8,
    pub y: i8,
}

/// A solution: the buildings to add to the task's board.
#[derive(Clone, Debug, PartialEq, Eq)]
pub struct Solution {
    pub objects: Vec<SolutionObject>,
}

impl TaskObject {
    /// The building that the object describes, or the error that says its
    /// subtype is unknown.
    ///
    /// A deposit's subtype is its resource type and a factory's its product
    /// type, both below 8. The subtype of a mine or a combiner is the code
    /// of its rotation, below 4. A conveyor's subtype is below 8: the
    /// remainder by 4 is the code of its rotation, and from 4 on it is big.
    pub open spec fn spec_to_building(self) -> Result<Building, IoError> {
        let pos = Pos { x: self.x, y: self.y };
        match self.kind {
            ObjectKind::Deposit => if self.subtype < 8 {
                Ok(
                    Building::Deposit(
                        Deposit {
                            pos,
                            width: self.width,
                            height: self.height,
                            resource_type: spec_resource_type(self.subtype),
                        },
                    ),
                )
            } else {
                Err(IoError::UnknownDepositSubtype(self.subtype))
            },
            ObjectKind::Obstacle => Ok(
                Building::Obstacle(Obstacle { pos, width: self.width, height: self.height }),
            ),
            ObjectKind::Mine => match Rotation::spec_from_code(self.subtype) {
                Some(rotation) => Ok(Building::Mine(Mine { pos, rotation })),
                None => Err(IoError::UnknownMineSubtype(self.subtype)),
            },
            ObjectKind::Conveyor => if self.subtype < 8 {
                Ok(
                    Building::Conveyor(
                        Conveyor {
                            pos,
                            rotation: Rotation::spec_from_code(self.subtype % 4)->0,
                            big: self.subtype >= 4,
                        },
                    ),
                )
            } else {
                Err(IoError::UnknownConveyorSubtype(self.subtype))
            },
            ObjectKind::Combiner => match Rotation::spec_from_code(self.subtype) {
                Some(rotation) => Ok(Building::Combiner(Combiner { pos, rotation })),
                None => Err(IoError::UnknownCombinerSubtype(self.subtype)),
            },
            ObjectKind::Factory => if self.subtype < 8 {
                Ok(
                    Building::Factory(
                        Factory { pos, product_type: spec_product_type(self.subtype) },
                    ),
                )
            } else {
                Err(IoError::UnknownFactorySubtype(self.subtype))
            },
        }
    }

    pub fn to_building(&self) -> (r: Result<Building, IoError>)
        ensures
            r == self.spec_to_building(),
    {
        let pos = Pos { x: self.x, y: self.y };
        match self.kind {
            ObjectKind::Deposit => match ResourceType::from_subtype(self.subtype) {
                Some(t) => {
                    proof {
                        lemma_resource_type(t);
                    }
                    Ok(Building::Deposit(Deposit::new(pos, self.width, self.height, t)))
                },
                None => Err(IoError::UnknownDepositSubtype(self.subtype)),
            },
            ObjectKind::Obstacle => Ok(
                Building::Obstacle(Obstacle::new(pos, self.width, self.height)),
            ),
            ObjectKind::Mine => match Rotation::from_code(self.subtype) {
                Some(rotation) => Ok(Building::Mine(Mine::new(pos, rotation))),
                None => Err(IoError::UnknownMineSubtype(self.subtype)),
            },
            ObjectKind::Conveyor => {
                if self.subtype >= 8 {
                    return Err(IoError::UnknownConveyorSubtype(self.subtype));
                }
                match Rotation::from_code(self.subtype % 4) {
                    Some(rotation) => Ok(
                        Building::Conveyor(Conveyor::new(pos, rotation, self.subtype / 4 == 1)),
                    ),
                    None => Err(IoError::UnknownConveyorSubtype(self.subtype)),
                }
            },
            ObjectKind::Combiner => match Rotation::from_code(self.subtype) {
                Some(rotation) => Ok(Building::Combiner(Combiner::new(pos, rotation))),
                None => Err(IoError::UnknownCombinerSubtype(self.subtype)),
            },
            ObjectKind::Factory => match ProductType::from_subtype(self.subtype) {
                Some(t) => {
                    proof {
                        lemma_product_type(t);
                    }
                    Ok(Building::Factory(Factory::new(pos, t)))
                },
                None => Err(IoError::UnknownFactorySubtype(self.subtype)),
            },
        }
    }
}

/// The resource type with slot `subtype`, for `subtype < 8`.
pub open spec fn spec_resource_type(subtype: u8) -> ResourceType {
    if subtype == 0 {
        ResourceType::Type0
    } else if subtype == 1 {
        ResourceType::Type1
    } else if subtype == 2 {
        ResourceType::Type2
    } else if subtype == 3 {
        ResourceType::Type3
    } else if subtype == 4 {
        ResourceType::Type4
    } else if subtype == 5 {
        ResourceType::Type5
    } else if subtype == 6 {
        ResourceType::Type6
    } else {
        ResourceType::Type7
    }
}

/// The product type with slot `subtype`, for `subtype < 8`.
pub open spec fn spec_product_type(subtype: u8) -> ProductType {
    if subtype == 0 {
        ProductType::Type0
    } else if subtype == 1 {
        ProductType::Type1
    } else if subtype == 2 {
        ProductType::Type2
    } else if subtype == 3 {
        ProductType::Type3
    } else if subtype == 4 {
        ProductType::Type4
    } else if subtype == 5 {
        ProductType::Type5
    } else if subtype == 6 {
        ProductType::Type6
    } else {
        ProductType::Type7
    }
}

/// A resource type is the one that its slot names.
pub proof fn lemma_resource_type(t: ResourceType)
    ensures
        spec_resource_type(t.spec_slot() as u8) == t,
{
}

/// A product type is the one that its slot names.
pub proof fn lemma_product_type(t: ProductType)
    ensures
        spec_product_type(t.spec_slot() as u8) == t,
{
}

impl SolutionObject {
    /// How a solution describes `building`; deposits and obstacles are no
    /// part of a solution. The subtype is the one from which a task object
    /// of that kind gives the building back.
    pub open spec fn spec_from_building(building: Building) -> Option<SolutionObject> {
        match building {
            Building::Mine(m) => Some(
                SolutionObject {
                    kind: ObjectKind::Mine,
                    subtype: m.rotation.spec_code(),
                    x: m.pos.x,
                    y: m.pos.y,
                },
            ),
            Building::Conveyor(c) => Some(
                SolutionObject {
                    kind: ObjectKind::Conveyor,
                    subtype: (c.rotation.spec_code() + if c.big {
                        4int
                    } else {
                        0int
                    }) as u8,
                    x: c.pos.x,
                    y: c.pos.y,
                },
            ),
            Building::Combiner(c) => Some(
                SolutionObject {
                    kind: ObjectKind::Combiner,
                    subtype: c.rotation.spec_code(),
                    x: c.pos.x,
                    y: c.pos.y,
                },
            ),
            Building::Factory(f) => Some(
                SolutionObject {
                    kind: ObjectKind::Factory,
                    subtype: f.product_type.spec_slot() as u8,
                    x: f.pos.x,
                    y: f.pos.y,
                },
            ),
            _ => None,
        }
    }

    pub fn from_building(building: &Building) -> (r: Option<SolutionObject>)
        ensures
            r == Self::spec_from_building(*building),
    {
        match building {
            Building::Deposit(_) => None,
            Building::Obstacle(_) => None,
            Building::Mine(m) => Some(
                SolutionObject {
                    kind: ObjectKind::Mine,
                    subtype: m.rotation.code(),
                    x: m.pos.x,
                    y: m.pos.y,
                },
            ),
            Building::Conveyor(c) => Some(
                SolutionObject {
                    kind: ObjectKind::Conveyor,
                    subtype: c.rotation.code() + if c.big {
                        4
                    } else {
                        0
                    },
                    x: c.pos.x,
                    y: c.pos.y,
                },
            ),
            Building::Combiner(c) => Some(
                SolutionObject {
                    kind: ObjectKind::Combiner,
                    subtype: c.rotation.code(),
                    x: c.pos.x,
                    y: c.pos.y,
                },
            ),
            Building::Factory(f) => Some(
                SolutionObject {
                    kind: ObjectKind::Factory,
                    subtype: f.product_type.subtype(),
                    x: f.pos.x,
                    y: f.pos.y,
                },
            ),
        }
    }

    /// The same object as a task describes it, without a rectangle.
    pub open spec fn spec_to_task_object(self) -> TaskObject {
        TaskObject {
            kind: self.kind,
            subtype: self.subtype,
            x: self.x,
            y: self.y,
            width: 0,
            height: 0,
        }
    }

    pub fn to_task_object(&self) -> (o: TaskObject)
        ensures
            o == self.spec_to_task_object(),
    {
        TaskObject {
            kind: self.kind,
            subtype: self.subtype,
            x: self.x,
            y: self.y,
            width: 0,
            height: 0,
        }
    }
}

/// Describing a building for a solution and reading the description back
/// gives the building again.
pub proof fn lemma_building_round_trip(building: Building)
    requires
        SolutionObject::spec_from_building(building) is Some,
    ensures
        SolutionObject::spec_from_building(building)->0.spec_to_task_object().spec_to_building()
            == Ok::<Building, IoError>(building),
{
    match building {
        Building::Factory(f) => {
            lemma_product_type(f.product_type);
        },
        _ => {},
    }
}

/// Reading a solution object and describing the building again gives the
/// object back.
pub proof fn lemma_object_round_trip(object: SolutionObject)
    requires
        object.kind != ObjectKind::Deposit,
        object.kind != ObjectKind::Obstacle,
        object.spec_to_task_object().spec_to_building() is Ok,
    ensures
        SolutionObject::spec_from_building(
            object.spec_to_task_object().spec_to_building()->Ok_0,
        ) == Some(object),
{
}

/// The buildings of `sim` that a solution holds, in order of identifier:
/// the first `n` slots.
pub open spec fn spec_solution(sim: Sim, n: int) -> Seq<SolutionObject>
    decreases n,
{
    if n <= 0 {
        Seq::empty()
    } else {
        let rest = spec_solution(sim, n - 1);
        match sim.buildings.values@[n - 1] {
            Some(b) => match SolutionObject::spec_from_building(b) {
                Some(o) => rest.push(o),
                None => rest,
            },
            None => rest,
        }
    }
}

impl Solution {
    /// The solution that holds every mine, conveyor, combiner and factory
    /// of `sim`, in order of identifier.
    pub fn from_sim(sim: &Sim) -> (s: Solution)
        ensures
            s.objects@ == spec_solution(*sim, sim.buildings.values@.len() as int),
    {
        let mut objects: Vec<SolutionObject> = Vec::new();
        let mut i: usize = 0;
        while i < sim.buildings.values.len()
            invariant
                i <= sim.buildings.values@.len(),
                objects@ == spec_solution(*sim, i as int),
            decreases sim.buildings.values@.len() - i,
        {
            if let Some(b) = sim.buildings.values[i] {
                if let Some(o) = SolutionObject::from_building(&b) {
                    objects.push(o);
                }
            }
            i += 1;
        }
        Solution { objects }
    }
}

/// The product table after the first `n` products of a task were entered,
/// a later one replacing an earlier one of the same subtype; or the error
/// of the first product whose subtype is unknown.
pub open spec fn spec_products(products: Seq<Product>, n: int) -> Result<Seq<crate::resources::Product>, Error>
    decreases n,
{
    if n <= 0 {
        Ok(Seq::new(8, |i: int| crate::resources::Product { resources: Resources::spec_empty(), points: 0 }))
    } else {
        match spec_products(products, n - 1) {
            Err(e) => Err(e),
            Ok(table) => {
                let p = products[n - 1];
                if p.subtype < 8 {
                    Ok(
                        table.update(
                            p.subtype as int,
                            crate::resources::Product {
                                resources: Resources { values: p.resources },
                                points: p.points,
                            },
                        ),
                    )
                } else {
                    Err(Error::Io(IoError::UnknownProductSubtype(p.subtype)))
                }
            },
        }
    }
}

/// What becomes of placing the first `n` objects of `task`, one after the
/// other, on the scene that `steps` starts with: `steps[i + 1]` is the scene
/// after object `i` was placed on `steps[i]`.
pub open spec fn objects_placed(task: Task, steps: Seq<Sim>, n: int) -> bool {
    &&& steps.len() == n + 1
    &&& forall|i: int|
        0 <= i < n ==> {
            let o = #[trigger] task.objects@[i];
            &&& o.spec_to_building() is Ok
            &&& o.spec_to_building()->Ok_0.spec_representable()
            &&& steps[i].wf()
            &&& exists|id: Id|
                placed(steps[i], o.spec_to_building()->Ok_0, Ok::<Id, Error>(id), steps[i + 1])
        }
}

/// Why object `k` of `task` cannot be placed on the scene `on`: its subtype
/// is unknown, its footprint leaves the range of positions (reported as out
/// of bounds at its anchor), or the placement fails.
pub open spec fn object_fails(task: Task, on: Sim, k: int, e: Error) -> bool {
    let o = task.objects@[k];
    match o.spec_to_building() {
        Err(io) => e == Error::Io(io),
        Ok(b) => if b.spec_representable() {
            exists|after: Sim| placed(on, b, Err::<Id, Error>(e), after)
        } else {
            e == Error::OutOfBounds(b.spec_pos())
        },
    }
}

/// The scene before any object of `task` is placed.
pub open spec fn is_blank_scene(task: Task, sim: Sim) -> bool {
    &&& sim.wf()
    &&& sim.board.is_blank()
    &&& sim.board.width == crate::board::spec_clamp(task.width)
    &&& sim.board.height == crate::board::spec_clamp(task.height)
    &&& sim.buildings.values@.len() == 0
    &&& sim.connections@.len() == 0
    &&& sim.turns == task.turns
    &&& sim.time == task.time
    &&& Ok::<Seq<crate::resources::Product>, Error>(sim.products.values@) == spec_products(
        task.products@,
        task.products@.len() as int,
    )
}

/// Builds the scene that `task` describes: a blank board of the task's
/// size, the product table, and the objects placed in order.
///
/// Fails with the error of the first product whose subtype is unknown; if
/// there is none, with the error of the first object that cannot be placed.
pub fn sim_from_task(task: &Task) -> (res: Result<Sim, Error>)
    requires
        task.objects@.len() <= 0x1_0000,
    ensures
        match res {
            Ok(sim) => {
                &&& sim.wf()
                &&& exists|steps: Seq<Sim>|
                    {
                        &&& #[trigger] objects_placed(*task, steps, task.objects@.len() as int)
                        &&& is_blank_scene(*task, steps[0])
                        &&& steps[task.objects@.len() as int] == sim
                    }
            },
            Err(e) => {
                ||| spec_products(task.products@, task.products@.len() as int) == Err::<
                    Seq<crate::resources::Product>,
                    Error,
                >(e)
                ||| exists|steps: Seq<Sim>, k: int|
                    {
                        &&& 0 <= k < task.objects@.len()
                        &&& #[trigger] objects_placed(*task, steps, k)
                        &&& is_blank_scene(*task, steps[0])
                        &&& object_fails(*task, steps[k], k, e)
                    }
            },
        },
{
    let mut products = Products::default();
    let mut i: usize = 0;
    proof {
        assert(products.values@ =~= spec_products(task.products@, 0)->Ok_0) by {
            assert forall|j: int| 0 <= j < 8 implies products.values@[j] == (
            crate::resources::Product { resources: Resources::spec_empty(), points: 0 }) by {
                Resources::lemma_equal(products.values@[j].resources, Resources::spec_empty());
            }
        }
    }
    while i < task.products.len()
        invariant
            i <= task.products@.len(),
            spec_products(task.products@, i as int) == Ok::<
                Seq<crate::resources::Product>,
                Error,
            >(products.values@),
        decreases task.products@.len() - i,
    {
        let p = task.products[i];
        match ProductType::from_subtype(p.subtype) {
            Some(t) => {
                products.set(t, crate::resources::Product::new(Resources::new(p.resources), p.points));
            },
            None => {
                proof {
                    lemma_products_stay(task.products@, i as int + 1, task.products@.len() as int);
                }
                return Err(Error::Io(IoError::UnknownProductSubtype(p.subtype)));
            },
        }
        i += 1;
    }
    let board = Board::new(task.width, task.height);
    let mut sim = Sim::new(products, board, task.turns, task.time);
    let ghost mut steps: Seq<Sim> = seq![sim];
    let mut k: usize = 0;
    while k < task.objects.len()
        invariant
            k <= task.objects@.len(),
            task.objects@.len() <= 0x1_0000,
            sim.wf(),
            sim.buildings.values@.len() <= k,
            objects_placed(*task, steps, k as int),
            is_blank_scene(*task, steps[0]),
            steps[k as int] == sim,
        decreases task.objects@.len() - k,
    {
        let o = task.objects[k];
        let b = match o.to_building() {
            Ok(b) => b,
            Err(io) => {
                return Err(Error::Io(io));
            },
        };
        if !b.representable() {
            return Err(Error::OutOfBounds(b.pos()));
        }
        let ghost before = sim;
        proof {
            crate::building::lemma_first_free(sim.buildings.values@);
        }
        match place_building(&mut sim, b) {
            Ok(id) => {
                proof {
                    let next = steps.push(sim);
                    assert forall|i: int| 0 <= i < k + 1 implies {
                        let o = #[trigger] task.objects@[i];
                        &&& o.spec_to_building() is Ok
                        &&& o.spec_to_building()->Ok_0.spec_representable()
                        &&& next[i].wf()
                        &&& exists|id: Id|
                            placed(
                                next[i],
                                o.spec_to_building()->Ok_0,
                                Ok::<Id, Error>(id),
                                next[i + 1],
                            )
                    } by {
                        if i < k {
                            assert(steps[i] == next[i] && steps[i + 1] == next[i + 1]);
                            let o = task.objects@[i];
                            let id0 = choose|id: Id|
                                placed(
                                    steps[i],
                                    o.spec_to_building()->Ok_0,
                                    Ok::<Id, Error>(id),
                                    steps[i + 1],
                                );
                            assert(placed(
                                next[i],
                                o.spec_to_building()->Ok_0,
                                Ok::<Id, Error>(id0),
                                next[i + 1],
                            ));
                        } else {
                            assert(placed(next[i], b, Ok::<Id, Error>(id), next[i + 1]));
                        }
                    }
                    steps = next;
                }
            },
            Err(e) => {
                proof {
                    assert(placed(before, b, Err::<Id, Error>(e), sim));
                    assert(object_fails(*task, steps[k as int], k as int, e));
                }
                return Err(e);
            },
        }
        k += 1;
    }
    Ok(sim)
}

/// Once a product's subtype is unknown, the error stays.
pub proof fn lemma_products_stay(products: Seq<Product>, n: int, m: int)
    requires
        0 <= n <= m,
        spec_products(products, n) is Err,
    ensures
        spec_products(products, m) == spec_products(products, n),
    decreases m,
{
    if n < m {
        lemma_products_stay(products, n, m - 1);
    }
}

} // verus!
