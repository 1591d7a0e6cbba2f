use crate::building::{Building, Combiner, Conveyor, Mine};
use crate::geometry::{Pos, Rotation};
use crate::path_stats::PathStats;
use vstd::prelude::*;

verus! {

/// Index of a node in the arena of a connection tree.
#[derive(Clone, Copy, Debug, PartialEq, Eq, Structural)]
pub struct NodeId(pub u32);

/// Index of the first of a run of sibling slots in the arena.
#[derive(Clone, Copy, Debug, PartialEq, Eq, Structural)]
pub struct ChildrenId(pub u32);

/// A building that carries resources towards the factory.
#[derive(Clone, Copy, Debug, PartialEq, Eq, Structural)]
pub enum ConnectionBuilding {
    Mine(Mine),
    Conveyor(Conveyor),
    Combiner(Combiner),
}

impl ConnectionBuilding {
    /// The same building as the scene knows it.
    pub open spec fn spec_to_building(self) -> Building {
        match self {
            ConnectionBuilding::Mine(m) => Building::Mine(m),
            ConnectionBuilding::Conveyor(c) => Building::Conveyor(c),
            ConnectionBuilding::Combiner(c) => Building::Combiner(c),
        }
    }

    pub fn to_building(&self) -> (b: Building)
        ensures
            b == self.spec_to_building(),
    {
        match self {
            ConnectionBuilding::Mine(m) => Building::Mine(*m),
            ConnectionBuilding::Conveyor(c) => Building::Conveyor(*c),
            ConnectionBuilding::Combiner(c) => Building::Combiner(*c),
        }
    }
}

/// How far the search has come below a node.
#[derive(Clone, Copy, Debug, PartialEq, Eq, Structural)]
pub enum State {
    /// The search depth ran out here; the path may be continued later.
    Stopped,
    /// The building's output lies beside the factory.
    Connected,
    /// The building's output feeds a building from which a path leads to
    /// the factory.
    Merged,
    /// The node was expanded: its children fill the slots from `start` on.
    Children { start: ChildrenId, len: u16 },
}

/// A node of a connection tree: a building, the cell its input stands on
/// and the cell its output stands on.
#[derive(Clone, Copy, Debug, PartialEq, Eq, Structural)]
pub struct ConnectionTreeNode {
    pub building: ConnectionBuilding,
    pub start_pos: Pos,
    pub end_pos: Pos,
    pub state: State,
}

impl ConnectionTreeNode {
    pub fn new(building: ConnectionBuilding, start_pos: Pos, end_pos: Pos, state: State) -> (n:
        ConnectionTreeNode)
        ensures
            n == (ConnectionTreeNode { building, start_pos, end_pos, state }),
    {
        ConnectionTreeNode { building, start_pos, end_pos, state }
    }

    /// What a reserved slot holds until a node is written to it: a stopped
    /// mine far off any board.
    pub open spec fn spec_uninitialized() -> ConnectionTreeNode {
        ConnectionTreeNode {
            building: ConnectionBuilding::Mine(
                Mine { pos: Pos { x: i8::MIN, y: i8::MIN }, rotation: Rotation::Up },
            ),
            start_pos: Pos { x: i8::MIN, y: i8::MIN },
            end_pos: Pos { x: i8::MIN, y: i8::MIN },
            state: State::Stopped,
        }
    }

    pub fn uninitialized() -> (n: ConnectionTreeNode)
        ensures
            n == Self::spec_uninitialized(),
    {
        ConnectionTreeNode {
            building: ConnectionBuilding::Mine(
                Mine { pos: Pos { x: i8::MIN, y: i8::MIN }, rotation: Rotation::Up },
            ),
            start_pos: Pos { x: i8::MIN, y: i8::MIN },
            end_pos: Pos { x: i8::MIN, y: i8::MIN },
            state: State::Stopped,
        }
    }
}

/// The arena of a connection tree. The children of a node stand side by
/// side in slots that were reserved before the first of them was written.
#[derive(Clone, Debug, PartialEq, Eq)]
pub struct ConnectionTree {
    pub nodes: Vec<ConnectionTreeNode>,
}

impl ConnectionTree {
    /// Every run of children lies within the arena, and the arena is no
    /// longer than node indices reach.
    pub open spec fn wf(self) -> bool {
        &&& self.nodes@.len() <= u32::MAX
        &&& forall|i: int|
            0 <= i < self.nodes@.len() ==> ((#[trigger] self.nodes@[i]).state matches State::Children {
                start,
                len,
            } ==> start.0 + len <= self.nodes@.len())
    }

    /// `size` more slots can be reserved.
    pub open spec fn can_reserve(self, size: u16) -> bool {
        self.nodes@.len() + size <= u32::MAX
    }

    /// An empty arena.
    pub fn new() -> (t: ConnectionTree)
        ensures
            t.nodes@.len() == 0,
            t.wf(),
    {
        ConnectionTree { nodes: Vec::new() }
    }

    /// Whether `size` more slots can be reserved.
    pub fn has_room(&self, size: u16) -> (b: bool)
        ensures
            b == self.can_reserve(size),
    {
        self.nodes.len() <= 0xFFFF_FFFF - size as usize
    }

    /// Reserves `size` slots at the end of the arena and returns the index
    /// of the first.
    pub fn reserve(&mut self, size: u16) -> (id: ChildrenId)
        requires
            old(self).can_reserve(size),
        ensures
            id.0 == old(self).nodes@.len(),
            final(self).nodes@.len() == old(self).nodes@.len() + size,
            final(self).nodes@.subrange(0, old(self).nodes@.len() as int) == old(self).nodes@,
            forall|i: int|
                old(self).nodes@.len() <= i < final(self).nodes@.len() ==> final(self).nodes@[i]
                    == ConnectionTreeNode::spec_uninitialized(),
            old(self).wf() ==> final(self).wf(),
    {
        let len = self.nodes.len();
        let mut i: usize = 0;
        while i < size as usize
            invariant
                i <= size,
                len == old(self).nodes@.len(),
                len + size <= u32::MAX,
                self.nodes@.len() == len + i,
                self.nodes@.subrange(0, len as int) == old(self).nodes@,
                forall|j: int|
                    len <= j < self.nodes@.len() ==> self.nodes@[j]
                        == ConnectionTreeNode::spec_uninitialized(),
            decreases size - i,
        {
            let ghost before = self.nodes@;
            self.nodes.push(ConnectionTreeNode::uninitialized());
            proof {
                assert(self.nodes@.subrange(0, len as int) =~= before.subrange(0, len as int));
            }
            i += 1;
        }
        proof {
            if old(self).wf() {
                assert forall|i: int| 0 <= i < self.nodes@.len() implies ((
                #[trigger] self.nodes@[i]).state matches State::Children { start, len }
                    ==> start.0 + len <= self.nodes@.len()) by {
                    if i < old(self).nodes@.len() {
                        assert(self.nodes@.subrange(0, old(self).nodes@.len() as int)[i]
                            == self.nodes@[i]);
                    }
                }
            }
        }
        ChildrenId(len as u32)
    }

    /// The node at `id`.
    pub fn get(&self, id: NodeId) -> (n: ConnectionTreeNode)
        requires
            id.0 < self.nodes@.len(),
        ensures
            n == self.nodes@[id.0 as int],
    {
        self.nodes[id.0 as usize]
    }

    /// Writes `node` to the slot at `id`.
    pub fn set(&mut self, id: NodeId, node: ConnectionTreeNode)
        requires
            id.0 < old(self).nodes@.len(),
        ensures
            final(self).nodes@ == old(self).nodes@.update(id.0 as int, node),
    {
        self.nodes[id.0 as usize] = node;
    }
}

/// The slot after the `len` children written so far; counts it as written.
pub fn increment_id(children_id: ChildrenId, len: &mut u16) -> (id: NodeId)
    requires
        children_id.0 + *old(len) <= u32::MAX,
        *old(len) < u16::MAX,
    ensures
        id.0 == children_id.0 + *old(len),
        *final(len) == *old(len) + 1,
{
    let id = children_id.0 + *len as u32;
    *len += 1;
    NodeId(id)
}

/// The better of `best` and `other`: `other` where it ranks above `best`
/// or there is no `best`, and `best` otherwise.
pub open spec fn better_of(
    best: Option<(NodeId, PathStats)>,
    other: Option<(NodeId, PathStats)>,
) -> Option<(NodeId, PathStats)> {
    match (other, best) {
        (None, _) => best,
        (Some(o), None) => Some(o),
        (Some(o), Some(b)) => if o.1.spec_better_than(b.1) {
            Some(o)
        } else {
            Some(b)
        },
    }
}

/// Replaces `best` by `other` where `other` ranks above it, or where there
/// is no `best` yet.
pub fn keep_better(best: &mut Option<(NodeId, PathStats)>, other: Option<(NodeId, PathStats)>)
    ensures
        *final(best) == better_of(*old(best), other),
{
    if let Some((_, other_stats)) = other {
        match *best {
            None => {
                *best = other;
            },
            Some((_, best_stats)) => {
                if other_stats.better_than(&best_stats) {
                    *best = other;
                }
            },
        }
    }
}

/// The buildings met on a walk along the connections: a `SmallVec` of
/// their identifiers, which stays off the heap for walks of up to 15
/// buildings.
#[verifier::external_body]
pub struct IdPath {
    ids: smallvec::SmallVec<[u16; 15]>,
}

/// The identifiers that a path holds, in the order in which they were
/// pushed.
pub uninterp spec fn path_ids(path: IdPath) -> Seq<u16>;

/// `SmallVec::new`: a vector that holds nothing.
#[verifier::external_body]
pub(crate) fn path_new() -> (path: IdPath)
    ensures
        path_ids(path) == Seq::<u16>::empty(),
{
    IdPath { ids: smallvec::SmallVec::new() }
}

/// `SmallVec::push`: the vector holds what it held, and `id` after it.
/// The length is kept far below the point where growing would overflow.
#[verifier::external_body]
pub(crate) fn path_push(path: &mut IdPath, id: u16)
    requires
        path_ids(*old(path)).len() < 0x1_0000,
    ensures
        path_ids(*final(path)) == path_ids(*old(path)).push(id),
{
    path.ids.push(id)
}

/// `contains` of the slice that the vector dereferences to: whether `id` is
/// among what the vector holds.
#[verifier::external_body]
pub(crate) fn path_contains(path: &IdPath, id: u16) -> (b: bool)
    ensures
        b == path_ids(*path).contains(id),
{
    path.ids.contains(&id)
}

} // verus!
