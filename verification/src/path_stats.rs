use core::cmp::Ordering;
use vstd::prelude::*;
use vstd::std_specs::cmp::PartialOrdSpecImpl;

verus! {

/// How good the best leaf below a node is: the steps left from it to the
/// factory, and the search depth left over when it was reached.
///
/// Fewer steps rank higher; with equal steps, more depth left over does.
#[derive(Clone, Copy, Debug, PartialEq, Eq, Structural)]
pub struct PathStats {
    pub dist: u16,
    pub depth: u8,
}

impl PathStats {
    pub fn new(dist: u16, depth: u8) -> (s: PathStats)
        ensures
            s == (PathStats { dist, depth }),
    {
        PathStats { dist, depth }
    }

    /// `self` ranks above `other`.
    pub open spec fn spec_better_than(self, other: PathStats) -> bool {
        self.dist < other.dist || (self.dist == other.dist && self.depth > other.depth)
    }

    pub fn better_than(&self, other: &PathStats) -> (b: bool)
        ensures
            b == self.spec_better_than(*other),
    {
        self.dist < other.dist || (self.dist == other.dist && self.depth > other.depth)
    }
}

impl PartialOrdSpecImpl for PathStats {
    open spec fn obeys_partial_cmp_spec() -> bool {
        true
    }

    open spec fn partial_cmp_spec(&self, other: &PathStats) -> Option<Ordering> {
        if self.spec_better_than(*other) {
            Some(Ordering::Greater)
        } else if other.spec_better_than(*self) {
            Some(Ordering::Less)
        } else {
            Some(Ordering::Equal)
        }
    }
}

impl PartialOrd for PathStats {
    fn partial_cmp(&self, other: &PathStats) -> (r: Option<Ordering>) {
        if self.better_than(other) {
            Some(Ordering::Greater)
        } else if other.better_than(self) {
            Some(Ordering::Less)
        } else {
            Some(Ordering::Equal)
        }
    }
}

} // verus!
