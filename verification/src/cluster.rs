use crate::geometry::{Id, Pos};
use crate::partition::{
    cells_of, deposits_of, lemma_regions_determined, lemma_same_size, same_region,
};
use crate::region::{cell_open, find_regions, is_regions_of, lemma_cell_in_one_region, Regions};
use crate::scene::Sim;
use vstd::prelude::*;

verus! {

/// A group of empty cells that hang together, with the buildings that
/// touch it.
#[derive(Clone, Debug, Default, PartialEq, Eq)]
pub struct Cluster {
    pub buildings: Vec<Id>,
    pub cells: Vec<Pos>,
}

impl Cluster {
    pub fn new(buildings: Vec<Id>, cells: Vec<Pos>) -> (c: Cluster)
        ensures
            c.buildings == buildings,
            c.cells == cells,
    {
        Cluster { buildings, cells }
    }
}

/// Cluster `i` of `clusters` holds the deposits and the cells of region
/// `i` of `g`.
pub open spec fn clusters_of(g: Regions, clusters: Seq<Cluster>) -> bool {
    &&& clusters.len() == g.indices@.len()
    &&& forall|i: int|
        0 <= i < clusters.len() ==> (#[trigger] clusters[i]).cells@ == g.cells@.subrange(
            g.cells_start(i),
            g.cells_end(i),
        ) && clusters[i].buildings@ == g.deposits@.subrange(
            g.deposits_start(i),
            g.deposits_end(i),
        )
}

/// The clusters are the regions of the board of `sim`, one cluster for
/// each region, in the order of the regions.
pub open spec fn is_clusters_of(sim: Sim, clusters: Seq<Cluster>) -> bool {
    exists|g: Regions| is_regions_of(sim, g) && #[trigger] clusters_of(g, clusters)
}

/// The clusters of a board are determined but for the order within a
/// cluster: two lists of them are as long, and hold as many and the same
/// cells and deposits in each cluster. There is a cluster wherever the
/// board has an empty cell.
pub proof fn lemma_clusters_determined(sim: Sim, a: Seq<Cluster>, b: Seq<Cluster>)
    requires
        is_clusters_of(sim, a),
        is_clusters_of(sim, b),
    ensures
        a.len() == b.len(),
        forall|i: int|
            0 <= i < a.len() ==> (#[trigger] a[i]).cells@.len() == b[i].cells@.len()
                && a[i].cells@.to_set() == b[i].cells@.to_set() && a[i].buildings@.len()
                == b[i].buildings@.len() && a[i].buildings@.to_set() == b[i].buildings@.to_set(),
        forall|p: Pos| cell_open(sim, p) ==> a.len() > 0,
{
    let g = choose|g: Regions| is_regions_of(sim, g) && #[trigger] clusters_of(g, a);
    let h = choose|h: Regions| is_regions_of(sim, h) && #[trigger] clusters_of(h, b);
    lemma_regions_determined(sim, g, h);
    assert forall|i: int| 0 <= i < a.len() implies (#[trigger] a[i]).cells@.len()
        == b[i].cells@.len() && a[i].cells@.to_set() == b[i].cells@.to_set()
        && a[i].buildings@.len() == b[i].buildings@.len() && a[i].buildings@.to_set()
        == b[i].buildings@.to_set() by {
        assert(same_region(g, h, i));
        lemma_same_size(sim, g, h, i);
        assert(a[i].cells@ == cells_of(g, i));
        assert(b[i].cells@ == cells_of(h, i));
        assert(a[i].buildings@ == deposits_of(g, i));
        assert(b[i].buildings@ == deposits_of(h, i));
    }
    assert forall|p: Pos| cell_open(sim, p) implies a.len() > 0 by {
        lemma_cell_in_one_region(sim, g, p);
    }
}

/// The regions of the board, each as a cluster of its own: the empty
/// cells that hang together, and the deposits that touch them; see
/// `find_regions`.
pub fn find_clusters(sim: &Sim) -> (clusters: Vec<Cluster>)
    requires
        sim.wf(),
    ensures
        is_clusters_of(*sim, clusters@),
{
    let regions = find_regions(sim);
    let mut clusters: Vec<Cluster> = Vec::new();
    let mut i: usize = 0;
    while i < regions.len()
        invariant
            i <= regions.indices@.len(),
            regions.wf(),
            clusters@.len() == i,
            forall|k: int|
                0 <= k < i ==> (#[trigger] clusters@[k]).cells@ == regions.cells@.subrange(
                    regions.cells_start(k),
                    regions.cells_end(k),
                ) && clusters@[k].buildings@ == regions.deposits@.subrange(
                    regions.deposits_start(k),
                    regions.deposits_end(k),
                ),
        decreases regions.indices@.len() - i,
    {
        let region = regions.get(i);
        clusters.push(Cluster::new(region.deposits, region.cells));
        i += 1;
    }
    proof {
        assert(clusters_of(regions, clusters@));
    }
    clusters
}

} // verus!
