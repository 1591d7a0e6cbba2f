use crate::stats::RegionStats;
use vstd::prelude::*;

verus! {

/// The depth with which the search begins.
pub const FIRST_SEARCH_DEPTH: u8 = 2;

/// What the search does next.
#[derive(Clone, Copy, Debug, PartialEq, Eq, Structural)]
pub enum Step {
    /// Connect the deposits to the factory position `factory` of the product
    /// `product` of the region `region`, with the given depth.
    Seed { region: usize, product: usize, factory: usize, search_depth: u8 },
    /// Every region was visited once: time to look at the clock.
    EndOfPass,
    /// Every position was tried with every depth.
    Finished,
}

/// Where the search stands. Pass after pass it visits the regions in
/// order; a region gives the next factory position of its current product,
/// or moves on to its next product. When no region has a product left, the
/// search starts again one level deeper.
#[derive(Clone, Debug, PartialEq, Eq)]
pub struct Schedule {
    pub search_depth: u8,
    /// For each region, the product it is at.
    pub product_idx: Vec<usize>,
    /// For each region, the next factory position of that product.
    pub factory_idx: Vec<usize>,
    /// The region that is visited next in this pass.
    pub region: usize,
    /// No region visited in this pass had a product left.
    pub all_done: bool,
    pub finished: bool,
}

impl Schedule {
    /// There is one entry per region, and the depth is at least the first.
    pub open spec fn wf(self, regions: int) -> bool {
        &&& self.product_idx@.len() == regions
        &&& self.factory_idx@.len() == regions
        &&& self.region <= regions
        &&& self.search_depth >= FIRST_SEARCH_DEPTH
    }

    /// The start: the first pass, at the first depth, before the first
    /// region.
    pub fn new(regions: usize) -> (s: Schedule)
        ensures
            s.wf(regions as int),
            s.search_depth == FIRST_SEARCH_DEPTH,
            s.region == 0,
            s.all_done,
            !s.finished,
            forall|r: int| 0 <= r < regions ==> s.product_idx@[r] == 0 && s.factory_idx@[r] == 0,
    {
        Schedule {
            search_depth: FIRST_SEARCH_DEPTH,
            product_idx: zeros(regions),
            factory_idx: zeros(regions),
            region: 0,
            all_done: true,
            finished: false,
        }
    }

    /// Region `r` has a factory position of its current product left.
    pub open spec fn has_position(self, stats: Seq<RegionStats>, r: int) -> bool {
        &&& self.product_idx@[r] < stats[r].product_stats@.len()
        &&& self.factory_idx@[r] < stats[r].product_stats@[self.product_idx@[r] as int].factory_stats@.len()
    }

    /// Region `r` has no product left.
    pub open spec fn exhausted(self, stats: Seq<RegionStats>, r: int) -> bool {
        self.product_idx@[r] >= stats[r].product_stats@.len()
    }

    /// Region `r` was passed over on the way from `self` to `next`: if it
    /// had a product left, it is at the first position of its next product
    /// now; otherwise it is where it was.
    pub open spec fn passed(self, stats: Seq<RegionStats>, next: Schedule, r: int) -> bool {
        if self.exhausted(stats, r) {
            next.product_idx@[r] == self.product_idx@[r] && next.factory_idx@[r]
                == self.factory_idx@[r]
        } else {
            next.product_idx@[r] == self.product_idx@[r] + 1 && next.factory_idx@[r] == 0
        }
    }

    /// No region was visited in the pass that ends at `self` with a product
    /// left, and none from `region` on has one.
    pub open spec fn nothing_left(self, stats: Seq<RegionStats>) -> bool {
        self.all_done && forall|r: int|
            self.region <= r < stats.len() ==> #[trigger] self.exhausted(stats, r)
    }

    /// Moves on to the next step and returns it.
    ///
    /// Within a pass, the regions from `region` on are visited in order. A
    /// region that has run out of products is passed over. A region whose
    /// current product has run out of positions moves on to its next
    /// product. The first region with a position left gives a seed. At the
    /// end of a pass comes `EndOfPass`; if no region had a product left in
    /// that pass, the next pass starts afresh one level deeper, and after
    /// the deepest level comes `Finished`.
    pub fn next_step(&mut self, stats: &Vec<RegionStats>) -> (step: Step)
        requires
            old(self).wf(stats@.len() as int),
        ensures
            final(self).wf(stats@.len() as int),
            old(self).finished ==> step == Step::Finished && *final(self) == *old(self),
            match step {
                Step::Seed { region, product, factory, search_depth } => {
                    &&& !old(self).finished
                    &&& old(self).region <= region < stats@.len()
                    &&& old(self).has_position(stats@, region as int)
                    &&& forall|r: int|
                        old(self).region <= r < region ==> !#[trigger] old(self).has_position(
                            stats@,
                            r,
                        )
                    &&& forall|r: int|
                        old(self).region <= r < region ==> #[trigger] old(self).passed(
                            stats@,
                            *final(self),
                            r,
                        )
                    &&& forall|r: int|
                        0 <= r < stats@.len() && !(old(self).region <= r <= region) ==> (
                        #[trigger] final(self).product_idx@[r]) == old(self).product_idx@[r]
                            && final(self).factory_idx@[r] == old(self).factory_idx@[r]
                    &&& search_depth == old(self).search_depth
                    &&& product == old(self).product_idx@[region as int]
                    &&& factory == old(self).factory_idx@[region as int]
                    &&& product == final(self).product_idx@[region as int]
                    &&& factory + 1 == final(self).factory_idx@[region as int]
                    &&& final(self).region == region + 1
                    &&& final(self).search_depth == old(self).search_depth
                    &&& !final(self).all_done
                    &&& !final(self).finished
                },
                Step::EndOfPass => {
                    &&& !old(self).finished
                    &&& forall|r: int|
                        old(self).region <= r < stats@.len() ==> !#[trigger] old(self).has_position(stats@, r)
                    &&& final(self).region == 0
                    &&& final(self).all_done
                    &&& final(self).finished == (old(self).nothing_left(stats@) && old(self).search_depth == u8::MAX)
                    &&& final(self).search_depth == if old(self).nothing_left(stats@) && old(self).search_depth < u8::MAX {
                        (old(self).search_depth + 1) as u8
                    } else {
                        old(self).search_depth
                    }
                    &&& forall|r: int|
                        0 <= r < stats@.len() ==> if old(self).nothing_left(stats@) && old(self).search_depth < u8::MAX {
                            (#[trigger] final(self).product_idx@[r]) == 0 && final(self).factory_idx@[r] == 0
                        } else if r < old(self).region {
                            final(self).product_idx@[r] == old(self).product_idx@[r] && final(self).factory_idx@[r] == old(self).factory_idx@[r]
                        } else {
                            old(self).passed(stats@, *final(self), r)
                        }
                },
                Step::Finished => old(self).finished,
            },
    {
        if self.finished {
            return Step::Finished;
        }
        let regions = stats.len();
        while self.region < regions
            invariant
                regions == stats@.len(),
                self.wf(regions as int),
                !self.finished,
                !old(self).finished,
                self.search_depth == old(self).search_depth,
                old(self).region <= self.region,
                forall|r: int|
                    0 <= r < regions && !(old(self).region <= r < self.region) ==> (
                    #[trigger] self.product_idx@[r]) == old(self).product_idx@[r],
                forall|r: int|
                    0 <= r < regions && !(old(self).region <= r < self.region) ==> (
                    #[trigger] self.factory_idx@[r]) == old(self).factory_idx@[r],
                forall|r: int|
                    old(self).region <= r < self.region ==> !#[trigger] old(self).has_position(
                        stats@,
                        r,
                    ),
                forall|r: int|
                    old(self).region <= r < self.region ==> #[trigger] old(self).passed(
                        stats@,
                        *self,
                        r,
                    ),
                self.all_done == (old(self).all_done && forall|r: int|
                    old(self).region <= r < self.region ==> #[trigger] old(self).exhausted(
                        stats@,
                        r,
                    )),
            decreases regions - self.region,
        {
            let r = self.region;
            let ghost before = *self;
            self.region = r + 1;
            let p = self.product_idx[r];
            if p < stats[r].product_stats.len() {
                self.all_done = false;
                let f = self.factory_idx[r];
                if f < stats[r].product_stats[p].factory_stats.len() {
                    self.factory_idx[r] = f + 1;
                    proof {
                        assert forall|k: int| old(self).region <= k < r implies #[trigger] old(self).passed(stats@, *self, k) by {
                            assert(old(self).passed(stats@, before, k));
                        }
                    }
                    return Step::Seed {
                        region: r,
                        product: p,
                        factory: f,
                        search_depth: self.search_depth,
                    };
                }
                self.product_idx[r] = p + 1;
                self.factory_idx[r] = 0;
                proof {
                    assert(!old(self).exhausted(stats@, r as int));
                }
            }
            proof {
                assert forall|k: int| old(self).region <= k < r + 1 implies #[trigger] old(self).passed(stats@, *self, k) by {
                    if k < r {
                        assert(old(self).passed(stats@, before, k));
                    }
                }
            }
        }
        let ghost scanned = *self;
        proof {
            assert(self.all_done == old(self).nothing_left(stats@));
        }
        if self.all_done {
            if self.search_depth == u8::MAX {
                self.finished = true;
            } else {
                self.search_depth += 1;
                self.product_idx = zeros(regions);
                self.factory_idx = zeros(regions);
            }
        }
        self.region = 0;
        self.all_done = true;
        proof {
            assert forall|r: int| 0 <= r < stats@.len() implies if old(self).nothing_left(stats@)
                && old(self).search_depth < u8::MAX {
                (#[trigger] self.product_idx@[r]) == 0 && self.factory_idx@[r] == 0
            } else if r < old(self).region {
                self.product_idx@[r] == old(self).product_idx@[r] && self.factory_idx@[r] == old(self).factory_idx@[r]
            } else {
                old(self).passed(stats@, *self, r)
            } by {
                if !(old(self).nothing_left(stats@) && old(self).search_depth < u8::MAX) {
                    if r >= old(self).region {
                        assert(old(self).passed(stats@, scanned, r));
                    }
                }
            }
        }
        Step::EndOfPass
    }
}

/// A list of `n` zeros.
fn zeros(n: usize) -> (v: Vec<usize>)
    ensures
        v@.len() == n,
        forall|i: int| 0 <= i < n ==> v@[i] == 0,
{
    let mut v: Vec<usize> = Vec::new();
    let mut i: usize = 0;
    while i < n
        invariant
            i <= n,
            v@.len() == i,
            forall|j: int| 0 <= j < i ==> v@[j] == 0,
        decreases n - i,
    {
        v.push(0);
        i += 1;
    }
    v
}

} // verus!
