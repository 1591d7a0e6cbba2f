use crate::building::{Building, Deposit};
use crate::distance::DistanceMap;
use crate::geometry::{Id, Pos};
use crate::region::{cell_open, Region, Regions};
use crate::resources::{Product, ProductType, ResourceType, Resources};
use crate::scene::Sim;
use vstd::prelude::*;

verus! {

/// The cells on the edge of a factory, as offsets from its anchor.
pub const FACTORY_BORDER: [(i8, i8); 16] = [
    (0, 0),
    (1, 0),
    (2, 0),
    (3, 0),
    (4, 0),
    (0, 1),
    (4, 1),
    (0, 2),
    (4, 2),
    (0, 3),
    (4, 3),
    (0, 4),
    (1, 4),
    (2, 4),
    (3, 4),
    (4, 4),
];

/// Index of a deposit in the deposit list of a product.
#[derive(Clone, Copy, Debug, PartialEq, Eq, Structural)]
pub struct DepositIdx {
    pub idx: usize,
}

/// A deposit that holds a resource the product needs.
#[derive(Clone, Copy, Debug, PartialEq, Eq, Structural)]
pub struct DepositStats {
    pub id: Id,
    pub resource_type: ResourceType,
    /// The units the deposit holds.
    pub resources: u16,
    /// The units the recipe needs of the deposit's type, times the units the
    /// deposit holds.
    pub weight: u32,
}

/// A place where a factory of the product can stand.
#[derive(Clone, Debug, PartialEq, Eq)]
pub struct FactoryStats {
    pub pos: Pos,
    /// The deposits near enough to deliver within the turns.
    pub deposits_in_reach: Vec<DepositIdx>,
    /// For each deposit of the product, the steps from it to the factory's
    /// edge; the largest number where there is no way.
    pub dists: Vec<u16>,
    /// The units that the deposits in reach suffice for.
    pub max_products: u16,
}

/// A product that the region can make, and where.
#[derive(Clone, Debug, PartialEq, Eq)]
pub struct ProductStats {
    pub product_type: ProductType,
    /// The points that all resources of the region would score.
    pub max_points: u32,
    pub deposit_stats: Vec<DepositStats>,
    pub factory_stats: Vec<FactoryStats>,
}

/// The products that a region can make, the most rewarding first.
#[derive(Clone, Debug, PartialEq, Eq)]
pub struct RegionStats {
    pub product_stats: Vec<ProductStats>,
}

/// The deposit stored under `id`, if there is one.
pub open spec fn deposit_of(sim: Sim, id: Id) -> Option<Deposit> {
    if sim.buildings.live(id) {
        match sim.buildings.spec_get(id) {
            Building::Deposit(d) => Some(d),
            _ => None,
        }
    } else {
        None
    }
}

/// The units a deposit holds, five per cell, or the largest amount if
/// that is less.
pub open spec fn spec_capped(d: Deposit) -> u16 {
    if d.spec_resources() > u16::MAX {
        u16::MAX
    } else {
        d.spec_resources() as u16
    }
}

/// `r` with `n` units more in `slot`, stopping at the largest amount.
pub open spec fn spec_credit(r: Resources, slot: int, n: u16) -> Resources {
    Resources::from_fn(
        |i: int|
            if i == slot {
                if r.amount(i) + n > u16::MAX {
                    u16::MAX
                } else {
                    (r.amount(i) + n) as u16
                }
            } else {
                r.values[i]
            },
    )
}

/// `r` with `n` units less in `slot`, stopping at zero.
pub open spec fn spec_debit(r: Resources, slot: int, n: u16) -> Resources {
    Resources::from_fn(
        |i: int|
            if i == slot {
                if r.amount(i) < n {
                    0u16
                } else {
                    (r.amount(i) - n) as u16
                }
            } else {
                r.values[i]
            },
    )
}

/// What the first `n` of `deposits` hold together.
pub open spec fn spec_available(sim: Sim, deposits: Seq<Id>, n: int) -> Resources
    decreases n,
{
    if n <= 0 {
        Resources::spec_empty()
    } else {
        let rest = spec_available(sim, deposits, n - 1);
        match deposit_of(sim, deposits[n - 1]) {
            Some(d) => spec_credit(rest, d.resource_type.spec_slot(), spec_capped(d)),
            None => rest,
        }
    }
}

/// The points that `available` would score as `product`, stopping at the
/// largest number of points.
pub open spec fn spec_max_points(product: Product, available: Resources) -> u32 {
    let units = available.spec_div(product.resources).spec_min();
    if product.points * units > u32::MAX {
        u32::MAX
    } else {
        (product.points * units) as u32
    }
}

/// The region can make the product: it scores, and the region holds its
/// recipe.
pub open spec fn admissible(product: Product, available: Resources) -> bool {
    product.points > 0 && available.spec_has_at_least(product.resources)
}

/// The entry of a deposit that holds what `product` needs.
pub open spec fn spec_deposit_entry(product: Product, id: Id, d: Deposit) -> DepositStats {
    DepositStats {
        id,
        resource_type: d.resource_type,
        resources: spec_capped(d),
        weight: (product.resources.amount(d.resource_type.spec_slot()) * spec_capped(d)) as u32,
    }
}

/// The entries of those of the first `n` of `deposits` that hold a resource
/// which `product` needs, in order.
pub open spec fn spec_deposit_stats(sim: Sim, product: Product, deposits: Seq<Id>, n: int) -> Seq<
    DepositStats,
>
    decreases n,
{
    if n <= 0 {
        Seq::empty()
    } else {
        let rest = spec_deposit_stats(sim, product, deposits, n - 1);
        match deposit_of(sim, deposits[n - 1]) {
            Some(d) => if product.resources.amount(d.resource_type.spec_slot()) > 0 {
                rest.push(spec_deposit_entry(product, deposits[n - 1], d))
            } else {
                rest
            },
            None => rest,
        }
    }
}

/// A factory at `pos` stands on empty cells of the board only.
pub open spec fn factory_fits(sim: Sim, pos: Pos) -> bool {
    forall|dx: int, dy: int|
        0 <= dx < 5 && 0 <= dy < 5 ==> pos.can_shift(dx, dy) && cell_open(
            sim,
            #[trigger] pos.shifted(dx, dy),
        )
}

/// The map of the deposit `id`, if there is one.
pub open spec fn map_of(maps: Seq<Option<DistanceMap>>, id: Id) -> Option<DistanceMap> {
    if id.0 < maps.len() {
        maps[id.0 as int]
    } else {
        None
    }
}

/// Entry of `map` at edge cell `k` of a factory at `pos`, if it has one.
pub open spec fn border_entry(map: DistanceMap, pos: Pos, k: int) -> Option<u16> {
    if pos.can_shift(FACTORY_BORDER[k].0 as int, FACTORY_BORDER[k].1 as int) {
        map.reach(pos.shifted(FACTORY_BORDER[k].0 as int, FACTORY_BORDER[k].1 as int))
    } else {
        None
    }
}

/// The smallest entry of `map` at the first `n` edge cells of a factory at
/// `pos`; the largest number if none has an entry.
pub open spec fn spec_border_dist(map: DistanceMap, pos: Pos, n: int) -> u16
    decreases n,
{
    if n <= 0 {
        u16::MAX
    } else {
        let rest = spec_border_dist(map, pos, n - 1);
        match border_entry(map, pos, n - 1) {
            Some(d) => if d < rest {
                d
            } else {
                rest
            },
            None => rest,
        }
    }
}

/// Steps from the deposit `id` to the edge of a factory at `pos`; the
/// largest number if there is no way or no map.
pub open spec fn spec_dist(maps: Seq<Option<DistanceMap>>, id: Id, pos: Pos) -> u16 {
    match map_of(maps, id) {
        Some(map) => spec_border_dist(map, pos, 16),
        None => u16::MAX,
    }
}

/// The deposit is near enough to deliver before the turns are over.
pub open spec fn in_reach(dist: u16, turns: u32) -> bool {
    dist / 4 + 2 < turns
}

/// What is known of a factory at `pos` after the first `n` deposits of
/// the product were looked at: the deposits in reach, what those hold of
/// `available`, and the steps from each deposit. `None` if a deposit lies
/// right beside the factory.
pub open spec fn spec_reach(
    sim: Sim,
    stats: Seq<DepositStats>,
    maps: Seq<Option<DistanceMap>>,
    available: Resources,
    pos: Pos,
    n: int,
) -> Option<(Seq<DepositIdx>, Resources, Seq<u16>)>
    decreases n,
{
    if n <= 0 {
        Some((Seq::empty(), available, Seq::empty()))
    } else {
        match spec_reach(sim, stats, maps, available, pos, n - 1) {
            None => None,
            Some((idxs, pool, dists)) => {
                let s = stats[n - 1];
                let dist = spec_dist(maps, s.id, pos);
                if dist == 0 {
                    None
                } else if in_reach(dist, sim.turns) {
                    Some((idxs.push(DepositIdx { idx: (n - 1) as usize }), pool, dists.push(dist)))
                } else {
                    Some(
                        (
                            idxs,
                            spec_debit(pool, s.resource_type.spec_slot(), s.resources),
                            dists.push(dist),
                        ),
                    )
                }
            },
        }
    }
}

/// `f` describes a factory of `product` at `pos`: the factory fits, no
/// deposit lies right beside it, and the deposits in reach hold the recipe.
pub open spec fn is_factory_stats(
    sim: Sim,
    product: Product,
    stats: Seq<DepositStats>,
    maps: Seq<Option<DistanceMap>>,
    available: Resources,
    pos: Pos,
    f: FactoryStats,
) -> bool {
    &&& f.pos == pos
    &&& factory_fits(sim, pos)
    &&& spec_reach(sim, stats, maps, available, pos, stats.len() as int) matches Some(
        (idxs, pool, dists),
    ) && {
        &&& f.deposits_in_reach@ == idxs
        &&& f.dists@ == dists
        &&& pool.spec_has_at_least(product.resources)
        &&& f.max_products == pool.spec_div(product.resources).spec_min()
    }
}

/// A factory of `product` can stand at `pos`.
pub open spec fn is_candidate(
    sim: Sim,
    product: Product,
    stats: Seq<DepositStats>,
    maps: Seq<Option<DistanceMap>>,
    available: Resources,
    pos: Pos,
) -> bool {
    &&& factory_fits(sim, pos)
    &&& spec_reach(sim, stats, maps, available, pos, stats.len() as int) matches Some(
        (idxs, pool, dists),
    ) && pool.spec_has_at_least(product.resources)
}

impl Resources {
    /// Adds `n` units of `resource_type`, stopping at the largest amount.
    pub fn credit(&mut self, resource_type: ResourceType, n: u16)
        ensures
            *final(self) == spec_credit(*old(self), resource_type.spec_slot(), n),
    {
        let i = resource_type.slot();
        let sum: u32 = self.values[i] as u32 + n as u32;
        self.values[i] = if sum > 0xFFFF {
            0xFFFF
        } else {
            sum as u16
        };
        proof {
            Resources::lemma_equal(*self, spec_credit(*old(self), resource_type.spec_slot(), n));
        }
    }

    /// Takes `n` units of `resource_type` away, stopping at zero.
    pub fn debit(&mut self, resource_type: ResourceType, n: u16)
        ensures
            *final(self) == spec_debit(*old(self), resource_type.spec_slot(), n),
    {
        let i = resource_type.slot();
        self.values[i] = if self.values[i] < n {
            0
        } else {
            self.values[i] - n
        };
        proof {
            Resources::lemma_equal(*self, spec_debit(*old(self), resource_type.spec_slot(), n));
        }
    }
}

impl Deposit {
    /// The units the deposit holds at the start, or the largest amount if
    /// that is less.
    pub fn capped_resources(&self) -> (n: u16)
        ensures
            n == spec_capped(*self),
    {
        assert(self.width * self.height <= 255 * 255) by (nonlinear_arith)
            requires
                self.width <= 255,
                self.height <= 255,
        ;
        let cells: u32 = self.width as u32 * self.height as u32;
        assert(5 * cells == self.spec_resources()) by (nonlinear_arith)
            requires
                cells == self.width * self.height,
                self.spec_resources() == 5 * self.width * self.height,
        ;
        if 5 * cells > 0xFFFF {
            0xFFFF
        } else {
            (5 * cells) as u16
        }
    }
}

/// The deposit stored under `id`, if there is one.
pub fn deposit(sim: &Sim, id: Id) -> (d: Option<Deposit>)
    ensures
        d == deposit_of(*sim, id),
{
    if sim.buildings.contains(id) {
        match sim.buildings.get(id) {
            Building::Deposit(d) => Some(d),
            _ => None,
        }
    } else {
        None
    }
}

/// What the deposits hold together, each slot stopping at the largest
/// amount.
pub fn available_resources(sim: &Sim, deposits: &Vec<Id>) -> (r: Resources)
    ensures
        r == spec_available(*sim, deposits@, deposits@.len() as int),
{
    let mut r = Resources::default();
    let mut i: usize = 0;
    while i < deposits.len()
        invariant
            i <= deposits@.len(),
            r == spec_available(*sim, deposits@, i as int),
        decreases deposits@.len() - i,
    {
        if let Some(d) = deposit(sim, deposits[i]) {
            r.credit(d.resource_type, d.capped_resources());
        }
        i += 1;
    }
    r
}

/// The points that `available` would score as `product`.
pub fn max_points(product: &Product, available: &Resources) -> (p: u32)
    ensures
        p == spec_max_points(*product, *available),
{
    let units = available.div(&product.resources).min();
    assert(product.points as int * units as int <= 0xFFFF_FFFF * 0xFFFF) by (nonlinear_arith)
        requires
            0 <= product.points <= 0xFFFF_FFFF,
            0 <= units <= 0xFFFF,
    ;
    let total: u64 = product.points as u64 * units as u64;
    if total > 0xFFFF_FFFF {
        0xFFFF_FFFF
    } else {
        total as u32
    }
}

/// The deposits that hold a resource which `product` needs.
pub fn deposit_stats(sim: &Sim, product: &Product, deposits: &Vec<Id>) -> (stats: Vec<
    DepositStats,
>)
    ensures
        stats@ == spec_deposit_stats(*sim, *product, deposits@, deposits@.len() as int),
{
    let mut stats: Vec<DepositStats> = Vec::new();
    let mut i: usize = 0;
    while i < deposits.len()
        invariant
            i <= deposits@.len(),
            stats@ == spec_deposit_stats(*sim, *product, deposits@, i as int),
        decreases deposits@.len() - i,
    {
        let id = deposits[i];
        if let Some(d) = deposit(sim, id) {
            let needed = product.resources.get(d.resource_type);
            if needed > 0 {
                let resources = d.capped_resources();
                assert(needed as int * resources as int <= 0xFFFF * 0xFFFF) by (nonlinear_arith)
                    requires
                        0 <= needed <= 0xFFFF,
                        0 <= resources <= 0xFFFF,
                ;
                stats.push(
                    DepositStats {
                        id,
                        resource_type: d.resource_type,
                        resources,
                        weight: needed as u32 * resources as u32,
                    },
                );
            }
        }
        i += 1;
    }
    stats
}

/// Whether a factory at `pos` would stand on empty cells only.
pub fn fits(sim: &Sim, pos: Pos) -> (b: bool)
    requires
        sim.board.wf(),
    ensures
        b == factory_fits(*sim, pos),
{
    if pos.x > 100 || pos.y > 100 || pos.x < 0 || pos.y < 0 {
        proof {
            assert(!cell_open(*sim, pos.shifted(0, 0)));
        }
        return false;
    }
    let mut k: usize = 0;
    while k < 25
        invariant
            k <= 25,
            sim.board.wf(),
            0 <= pos.x <= 100,
            0 <= pos.y <= 100,
            forall|j: int| 0 <= j < k ==> cell_open(*sim, #[trigger] pos.shifted(j % 5, j / 5)),
        decreases 25 - k,
    {
        let p = Pos { x: pos.x + (k % 5) as i8, y: pos.y + (k / 5) as i8 };
        match sim.board.get(p) {
            Some(None) => {},
            _ => {
                proof {
                    assert(!cell_open(*sim, pos.shifted(k as int % 5, k as int / 5)));
                }
                return false;
            },
        }
        k += 1;
    }
    proof {
        assert forall|dx: int, dy: int| 0 <= dx < 5 && 0 <= dy < 5 implies pos.can_shift(dx, dy)
            && cell_open(*sim, #[trigger] pos.shifted(dx, dy)) by {
            let j = dy * 5 + dx;
            assert(j % 5 == dx && j / 5 == dy);
            assert(cell_open(*sim, pos.shifted(j % 5, j / 5)));
        }
    }
    true
}

/// Steps from the target of `map` to the edge of a factory at `pos`: the
/// smallest entry of an edge cell, or the largest number if none has one.
pub fn border_distance(map: &DistanceMap, pos: Pos) -> (d: u16)
    requires
        map.wf(),
    ensures
        d == spec_border_dist(*map, pos, 16),
{
    let mut d: u16 = 0xFFFF;
    let mut k: usize = 0;
    while k < 16
        invariant
            k <= 16,
            map.wf(),
            d == spec_border_dist(*map, pos, k as int),
        decreases 16 - k,
    {
        let (dx, dy) = FACTORY_BORDER[k];
        let x = pos.x as i16 + dx as i16;
        let y = pos.y as i16 + dy as i16;
        if -128 <= x && x <= 127 && -128 <= y && y <= 127 {
            if let Some(e) = map.steps(Pos { x: x as i8, y: y as i8 }) {
                if e < d {
                    d = e;
                }
            }
        }
        k += 1;
    }
    d
}

/// Steps from the deposit `id` to the edge of a factory at `pos`.
pub fn deposit_distance(maps: &Vec<Option<DistanceMap>>, id: Id, pos: Pos) -> (d: u16)
    requires
        maps_fit(maps@),
    ensures
        d == spec_dist(maps@, id, pos),
{
    if (id.0 as usize) < maps.len() {
        match &maps[id.0 as usize] {
            Some(map) => border_distance(map, pos),
            None => 0xFFFF,
        }
    } else {
        0xFFFF
    }
}

/// Every map that is there is well formed.
pub open spec fn maps_fit(maps: Seq<Option<DistanceMap>>) -> bool {
    forall|i: int| 0 <= i < maps.len() ==> ((#[trigger] maps[i]) matches Some(m) ==> m.wf())
}

/// Looks at a factory of `product` at `pos`: `None` if it does not fit, a
/// deposit lies right beside it, or the deposits in reach do not hold the
/// recipe.
pub fn factory_stats_at(
    sim: &Sim,
    product: &Product,
    stats: &Vec<DepositStats>,
    maps: &Vec<Option<DistanceMap>>,
    available: &Resources,
    pos: Pos,
) -> (r: Option<FactoryStats>)
    requires
        sim.board.wf(),
        maps_fit(maps@),
    ensures
        r is Some <==> is_candidate(*sim, *product, stats@, maps@, *available, pos),
        r is Some ==> is_factory_stats(*sim, *product, stats@, maps@, *available, pos, r->0),
{
    if !fits(sim, pos) {
        return None;
    }
    let mut pool = *available;
    let mut in_reach_idx: Vec<DepositIdx> = Vec::new();
    let mut dists: Vec<u16> = Vec::new();
    let mut i: usize = 0;
    while i < stats.len()
        invariant
            i <= stats@.len(),
            maps_fit(maps@),
            spec_reach(*sim, stats@, maps@, *available, pos, i as int) == Some(
                (in_reach_idx@, pool, dists@),
            ),
        decreases stats@.len() - i,
    {
        let s = stats[i];
        let dist = deposit_distance(maps, s.id, pos);
        if dist == 0 {
            proof {
                lemma_reach_stays(*sim, stats@, maps@, *available, pos, i as int + 1, stats@.len() as int);
            }
            return None;
        }
        if ((dist / 4) as u32) + 2 < sim.turns {
            in_reach_idx.push(DepositIdx { idx: i });
        } else {
            pool.debit(s.resource_type, s.resources);
        }
        dists.push(dist);
        i += 1;
    }
    if !pool.has_at_least(&product.resources) {
        return None;
    }
    let max_products = pool.div(&product.resources).min();
    Some(FactoryStats { pos, deposits_in_reach: in_reach_idx, dists, max_products })
}

/// Once a deposit lies right beside the factory, the verdict stays.
pub proof fn lemma_reach_stays(
    sim: Sim,
    stats: Seq<DepositStats>,
    maps: Seq<Option<DistanceMap>>,
    available: Resources,
    pos: Pos,
    n: int,
    m: int,
)
    requires
        0 <= n <= m,
        spec_reach(sim, stats, maps, available, pos, n) is None,
    ensures
        spec_reach(sim, stats, maps, available, pos, m) is None,
    decreases m,
{
    if n < m {
        lemma_reach_stays(sim, stats, maps, available, pos, n, m - 1);
    }
}

/// Those of the first `n` of `cells` at which a factory of `product` can
/// stand, in order.
pub open spec fn spec_kept(
    sim: Sim,
    product: Product,
    stats: Seq<DepositStats>,
    maps: Seq<Option<DistanceMap>>,
    available: Resources,
    cells: Seq<Pos>,
    n: int,
) -> Seq<Pos>
    decreases n,
{
    if n <= 0 {
        Seq::empty()
    } else {
        let rest = spec_kept(sim, product, stats, maps, available, cells, n - 1);
        if is_candidate(sim, product, stats, maps, available, cells[n - 1]) {
            rest.push(cells[n - 1])
        } else {
            rest
        }
    }
}

/// The places among `cells` where a factory of `product` can stand, in the
/// order of `cells`.
pub fn factory_candidates(
    sim: &Sim,
    product: &Product,
    stats: &Vec<DepositStats>,
    maps: &Vec<Option<DistanceMap>>,
    available: &Resources,
    cells: &Vec<Pos>,
) -> (out: Vec<FactoryStats>)
    requires
        sim.board.wf(),
        maps_fit(maps@),
    ensures
        out@.len() == spec_kept(
            *sim,
            *product,
            stats@,
            maps@,
            *available,
            cells@,
            cells@.len() as int,
        ).len(),
        forall|i: int|
            0 <= i < out@.len() ==> is_factory_stats(
                *sim,
                *product,
                stats@,
                maps@,
                *available,
                spec_kept(*sim, *product, stats@, maps@, *available, cells@, cells@.len() as int)[i],
                #[trigger] out@[i],
            ),
{
    let mut out: Vec<FactoryStats> = Vec::new();
    let mut k: usize = 0;
    while k < cells.len()
        invariant
            k <= cells@.len(),
            sim.board.wf(),
            maps_fit(maps@),
            out@.len() == spec_kept(*sim, *product, stats@, maps@, *available, cells@, k as int).len(),
            forall|i: int|
                0 <= i < out@.len() ==> is_factory_stats(
                    *sim,
                    *product,
                    stats@,
                    maps@,
                    *available,
                    spec_kept(*sim, *product, stats@, maps@, *available, cells@, k as int)[i],
                    #[trigger] out@[i],
                ),
        decreases cells@.len() - k,
    {
        if let Some(f) = factory_stats_at(sim, product, stats, maps, available, cells[k]) {
            out.push(f);
        }
        k += 1;
    }
    out
}

/// `ps` says how the region with these deposits and cells can make the
/// product `t`.
pub open spec fn is_product_stats(
    sim: Sim,
    deposits: Seq<Id>,
    cells: Seq<Pos>,
    maps: Seq<Option<DistanceMap>>,
    t: ProductType,
    ps: ProductStats,
) -> bool {
    let product = sim.products.spec_get(t);
    let available = spec_available(sim, deposits, deposits.len() as int);
    let stats = spec_deposit_stats(sim, product, deposits, deposits.len() as int);
    let kept = spec_kept(sim, product, stats, maps, available, cells, cells.len() as int);
    &&& ps.product_type == t
    &&& admissible(product, available)
    &&& ps.max_points == spec_max_points(product, available)
    &&& ps.deposit_stats@ == stats
    &&& ps.factory_stats@.len() == kept.len()
    &&& forall|i: int|
        0 <= i < kept.len() ==> is_factory_stats(
            sim,
            product,
            stats,
            maps,
            available,
            kept[i],
            #[trigger] ps.factory_stats@[i],
        )
}

/// The region with these deposits can make the product `t`.
pub open spec fn can_make(sim: Sim, deposits: Seq<Id>, t: ProductType) -> bool {
    admissible(sim.products.spec_get(t), spec_available(sim, deposits, deposits.len() as int))
}

/// How the region can make the product `t`, or `None` if it cannot.
pub fn product_stats_of(
    sim: &Sim,
    region: &Region,
    maps: &Vec<Option<DistanceMap>>,
    t: ProductType,
) -> (r: Option<ProductStats>)
    requires
        sim.board.wf(),
        maps_fit(maps@),
    ensures
        r is Some <==> can_make(*sim, region.deposits@, t),
        r is Some ==> is_product_stats(*sim, region.deposits@, region.cells@, maps@, t, r->0),
{
    let product = sim.products.get(t);
    let available = available_resources(sim, &region.deposits);
    if product.points == 0 {
        return None;
    }
    if !available.has_at_least(&product.resources) {
        return None;
    }
    let stats = deposit_stats(sim, &product, &region.deposits);
    let factories = factory_candidates(sim, &product, &stats, maps, &available, &region.cells);
    Some(
        ProductStats {
            product_type: t,
            max_points: max_points(&product, &available),
            deposit_stats: stats,
            factory_stats: factories,
        },
    )
}

/// The product type with slot `i`.
pub fn product_type_at(i: usize) -> (t: ProductType)
    requires
        i < 8,
    ensures
        t.spec_slot() == i,
{
    match ProductType::from_subtype(i as u8) {
        Some(t) => t,
        None => ProductType::Type0,
    }
}

/// `rs` lists what the region with these deposits and cells can make:
/// each product it can make once, the most rewarding first.
pub open spec fn is_region_stats(
    sim: Sim,
    deposits: Seq<Id>,
    cells: Seq<Pos>,
    maps: Seq<Option<DistanceMap>>,
    rs: Seq<ProductStats>,
    upto: int,
) -> bool {
    &&& forall|i: int|
        0 <= i < rs.len() ==> is_product_stats(
            sim,
            deposits,
            cells,
            maps,
            (#[trigger] rs[i]).product_type,
            rs[i],
        ) && rs[i].product_type.spec_slot() < upto
    &&& forall|i: int, j: int|
        0 <= i < j < rs.len() ==> (#[trigger] rs[i]).product_type != (#[trigger] rs[j]).product_type
            && rs[i].max_points >= rs[j].max_points
    &&& forall|t: ProductType|
        t.spec_slot() < upto && #[trigger] can_make(sim, deposits, t) ==> exists|i: int|
            0 <= i < rs.len() && (#[trigger] rs[i]).product_type == t
}

/// What the region can make, the most rewarding product first; products
/// that reward the same stay in the order of their types.
pub fn region_stats(sim: &Sim, region: &Region, maps: &Vec<Option<DistanceMap>>) -> (rs: Vec<
    ProductStats,
>)
    requires
        sim.board.wf(),
        maps_fit(maps@),
    ensures
        is_region_stats(*sim, region.deposits@, region.cells@, maps@, rs@, 8),
{
    let mut rs: Vec<ProductStats> = Vec::new();
    let mut i: usize = 0;
    while i < 8
        invariant
            i <= 8,
            sim.board.wf(),
            maps_fit(maps@),
            is_region_stats(*sim, region.deposits@, region.cells@, maps@, rs@, i as int),
        decreases 8 - i,
    {
        let t = product_type_at(i);
        if let Some(ps) = product_stats_of(sim, region, maps, t) {
            let mut at: usize = 0;
            while at < rs.len() && rs[at].max_points >= ps.max_points
                invariant
                    at <= rs@.len(),
                    forall|j: int| 0 <= j < at ==> (#[trigger] rs@[j]).max_points >= ps.max_points,
                decreases rs@.len() - at,
            {
                at += 1;
            }
            let ghost before = rs@;
            let ghost entry = ps;
            rs.insert(at, ps);
            proof {
                assert forall|j: int| 0 <= j < rs@.len() implies is_product_stats(
                    *sim,
                    region.deposits@,
                    region.cells@,
                    maps@,
                    (#[trigger] rs@[j]).product_type,
                    rs@[j],
                ) && rs@[j].product_type.spec_slot() < i + 1 by {
                    if j < at {
                        assert(rs@[j] == before[j]);
                    } else if j > at {
                        assert(rs@[j] == before[j - 1]);
                    }
                }
                assert forall|a: int, b: int| 0 <= a < b < rs@.len() implies (
                #[trigger] rs@[a]).product_type != (#[trigger] rs@[b]).product_type
                    && rs@[a].max_points >= rs@[b].max_points by {
                    let x = if a < at {
                        before[a]
                    } else if a == at {
                        entry
                    } else {
                        before[a - 1]
                    };
                    let y = if b < at {
                        before[b]
                    } else if b == at {
                        entry
                    } else {
                        before[b - 1]
                    };
                    assert(rs@[a] == x && rs@[b] == y);
                    if a != at && b != at {
                        let a0 = if a < at {
                            a
                        } else {
                            a - 1
                        };
                        let b0 = if b < at {
                            b
                        } else {
                            b - 1
                        };
                        assert(before[a0].product_type != before[b0].product_type);
                    } else if a == at {
                        assert(before[b - 1].product_type.spec_slot() < i);
                        if at < before.len() {
                            assert(before[at as int].max_points < entry.max_points);
                            if b - 1 > at {
                                assert(before[at as int].max_points >= before[b - 1].max_points);
                            }
                        }
                    } else {
                        assert(before[a].product_type.spec_slot() < i);
                    }
                }
                assert forall|u: ProductType|
                    u.spec_slot() < i + 1 && #[trigger] can_make(
                        *sim,
                        region.deposits@,
                        u,
                    ) implies exists|j: int|
                    0 <= j < rs@.len() && (#[trigger] rs@[j]).product_type == u by {
                    if u.spec_slot() < i {
                        let j = choose|j: int|
                            0 <= j < before.len() && (#[trigger] before[j]).product_type == u;
                        if j < at {
                            assert(rs@[j] == before[j]);
                        } else {
                            assert(rs@[j + 1] == before[j]);
                        }
                    } else {
                        assert(u == t);
                        assert(rs@[at as int].product_type == u);
                    }
                }
            }
        } else {
            proof {
                assert forall|u: ProductType|
                    u.spec_slot() < i + 1 && #[trigger] can_make(
                        *sim,
                        region.deposits@,
                        u,
                    ) implies exists|j: int|
                    0 <= j < rs@.len() && (#[trigger] rs@[j]).product_type == u by {
                    if u.spec_slot() == i {
                        assert(u == t);
                    }
                }
            }
        }
        i += 1;
    }
    rs
}

/// The region with these deposits can make some product.
pub open spec fn makes_something(sim: Sim, deposits: Seq<Id>) -> bool {
    exists|t: ProductType| #[trigger] can_make(sim, deposits, t)
}

/// The regions among the first `n` that can make some product, in order.
pub open spec fn spec_productive(sim: Sim, g: Regions, n: int) -> Seq<int>
    decreases n,
{
    if n <= 0 {
        Seq::empty()
    } else {
        let rest = spec_productive(sim, g, n - 1);
        if makes_something(
            sim,
            g.deposits@.subrange(g.deposits_start(n - 1), g.deposits_end(n - 1)),
        ) {
            rest.push(n - 1)
        } else {
            rest
        }
    }
}

/// For every region that can make a product, the products it can make, the
/// most rewarding first, each with the places where its factory can stand.
/// Regions that can make nothing are left out.
///
/// A region can make a product that scores if its deposits hold the
/// recipe. A factory can stand where its 25 cells are empty, no deposit of
/// the product lies right beside it, and the deposits from which the way
/// is short enough for the turns hold the recipe.
pub fn rank_regional_factory_positions(
    sim: &Sim,
    regions: &Regions,
    maps: &Vec<Option<DistanceMap>>,
) -> (out: Vec<RegionStats>)
    requires
        sim.board.wf(),
        regions.wf(),
        maps_fit(maps@),
    ensures
        out@.len() == spec_productive(*sim, *regions, regions.indices@.len() as int).len(),
        forall|i: int|
            0 <= i < out@.len() ==> {
                let r = spec_productive(*sim, *regions, regions.indices@.len() as int)[i];
                &&& (#[trigger] out@[i]).product_stats@.len() > 0
                &&& is_region_stats(
                    *sim,
                    regions.deposits@.subrange(regions.deposits_start(r), regions.deposits_end(r)),
                    regions.cells@.subrange(regions.cells_start(r), regions.cells_end(r)),
                    maps@,
                    out@[i].product_stats@,
                    8,
                )
            },
{
    let mut out: Vec<RegionStats> = Vec::new();
    let mut r: usize = 0;
    while r < regions.len()
        invariant
            r <= regions.indices@.len(),
            sim.board.wf(),
            regions.wf(),
            maps_fit(maps@),
            out@.len() == spec_productive(*sim, *regions, r as int).len(),
            forall|i: int|
                0 <= i < out@.len() ==> {
                    let k = spec_productive(*sim, *regions, r as int)[i];
                    &&& (#[trigger] out@[i]).product_stats@.len() > 0
                    &&& is_region_stats(
                        *sim,
                        regions.deposits@.subrange(
                            regions.deposits_start(k),
                            regions.deposits_end(k),
                        ),
                        regions.cells@.subrange(regions.cells_start(k), regions.cells_end(k)),
                        maps@,
                        out@[i].product_stats@,
                        8,
                    )
                },
        decreases regions.indices@.len() - r,
    {
        let region = regions.get(r);
        let product_stats = region_stats(sim, &region, maps);
        let ghost deposits = regions.deposits@.subrange(
            regions.deposits_start(r as int),
            regions.deposits_end(r as int),
        );
        proof {
            if product_stats@.len() == 0 {
                assert forall|t: ProductType| !(#[trigger] can_make(*sim, deposits, t)) by {
                    if can_make(*sim, deposits, t) {
                        assert(t.spec_slot() < 8);
                    }
                }
            } else {
                let t = product_stats@[0].product_type;
                assert(can_make(*sim, deposits, t));
            }
        }
        if product_stats.len() > 0 {
            out.push(RegionStats { product_stats });
        }
        r += 1;
    }
    out
}

} // verus!
