//! A statically subdivided quad-tree over a rectangle of the ground plane.
//!
//! The tree is cut once, when it is built: a node whose width exceeds the
//! minimum leaf size is split at its midpoint into four quadrants, and so
//! on down. Afterwards only the handle sets of the leaves change.

use vstd::prelude::*;
use std::collections::HashSet;
use std::collections::VecDeque;
use crate::fixed::Vec2;

verus! {

broadcast use vstd::std_specs::hash::group_hash_axioms;

/// Midpoint of two coordinates, rounded towards the first.
pub open spec fn midpoint(a: int, b: int) -> int {
    if b >= a {
        a + (b - a) / 2
    } else {
        a - (a - b) / 2
    }
}

/// Width of a rectangle along the first axis: the extent that decides
/// whether a node is split.
pub open spec fn width(bounds: [Vec2; 2]) -> int {
    bounds[1].x - bounds[0].x
}

/// The point where a rectangle is split.
pub open spec fn center(bounds: [Vec2; 2]) -> Vec2 {
    Vec2 {
        x: midpoint(bounds[0].x as int, bounds[1].x as int) as i32,
        y: midpoint(bounds[0].y as int, bounds[1].y as int) as i32,
    }
}

/// Lower corner of quadrant `i` of a rectangle. Quadrants are numbered
/// low-x/low-y, high-x/low-y, low-x/high-y, high-x/high-y.
pub open spec fn quadrant_lo(bounds: [Vec2; 2], i: int) -> Vec2 {
    Vec2 {
        x: if i == 1 || i == 3 { center(bounds).x } else { bounds[0].x },
        y: if i == 2 || i == 3 { center(bounds).y } else { bounds[0].y },
    }
}

/// Upper corner of quadrant `i` of a rectangle.
pub open spec fn quadrant_hi(bounds: [Vec2; 2], i: int) -> Vec2 {
    Vec2 {
        x: if i == 1 || i == 3 { bounds[1].x } else { center(bounds).x },
        y: if i == 2 || i == 3 { bounds[1].y } else { center(bounds).y },
    }
}

/// Whether the point `(x, y)` lies in a rectangle: above the lower corner
/// strictly, up to the upper corner inclusively, on each axis.
pub open spec fn region_contains(bounds: [Vec2; 2], x: int, y: int) -> bool {
    bounds[0].x < x <= bounds[1].x && bounds[0].y < y <= bounds[1].y
}

/// One node of the tree. A node without children is a leaf; only leaves
/// hold handles.
pub struct QuadTree {
    pub bounds: [Vec2; 2],
    pub min_size: i32,
    pub children: Option<Vec<QuadTree>>,
    pub objects: Option<HashSet<u64>>,
}

/// What a leaf shows of itself: its rectangle and the handles in it.
pub struct Leaf {
    pub bounds: [Vec2; 2],
    pub objects: Set<u64>,
}

impl Leaf {
    pub open spec fn spec_contains(self, position: Vec2) -> bool {
        region_contains(self.bounds, position.x as int, position.y as int)
    }

    /// The leaf after `entity` was recorded at `position`: it gains the
    /// handle if the position lies in it, and stays as it is otherwise.
    pub open spec fn with_handle(self, position: Vec2, entity: u64) -> Leaf {
        if self.spec_contains(position) {
            Leaf { bounds: self.bounds, objects: self.objects.insert(entity) }
        } else {
            self
        }
    }

    /// The leaf after `entity` was offered to the index at the point
    /// `(x, y)`, which need not be a point that coordinates can hold.
    pub open spec fn noting(self, x: int, y: int, entity: u64) -> Leaf {
        if region_contains(self.bounds, x, y) {
            Leaf { bounds: self.bounds, objects: self.objects.insert(entity) }
        } else {
            self
        }
    }

    /// The leaf with no handle in it.
    pub open spec fn emptied(self) -> Leaf {
        Leaf { bounds: self.bounds, objects: Set::empty() }
    }
}

/// A tree is viewed as the sequence of its leaves in breadth-first order.
impl View for QuadTree {
    type V = Seq<Leaf>;

    open spec fn view(&self) -> Seq<Leaf> {
        self.leaves().map_values(|node: QuadTree| node.as_leaf())
    }
}

impl QuadTree {
    /// This node seen as a leaf.
    pub open spec fn as_leaf(self) -> Leaf {
        Leaf { bounds: self.bounds, objects: self.handles() }
    }

    /// The handles stored in this node.
    pub open spec fn handles(self) -> Set<u64> {
        match self.objects {
            Some(set) => set@,
            None => Set::empty(),
        }
    }

    /// Whether the node is occupied: it has a handle set.
    pub open spec fn occupied(self) -> bool {
        self.objects is Some
    }

    /// The shape that building gives a tree and that every operation keeps:
    /// a node is split exactly when it is wider than the minimum leaf size,
    /// its four children cover its quadrants, no inner node holds
    /// handles, and a handle set that is there is not empty, so that a
    /// leaf is occupied exactly if it holds a handle.
    pub open spec fn well_formed(self) -> bool
        decreases self,
    {
        &&& self.min_size > 0
        &&& (self.objects matches Some(set) ==> set@ != Set::<u64>::empty())
        &&& match self.children {
            None => width(self.bounds) <= self.min_size,
            Some(kids) => {
                &&& width(self.bounds) > self.min_size
                &&& self.objects is None
                &&& kids@.len() == 4
                &&& forall|i: int|
                    0 <= i < 4 ==> {
                        &&& (#[trigger] kids@[i]).bounds[0] == quadrant_lo(self.bounds, i)
                        &&& kids@[i].bounds[1] == quadrant_hi(self.bounds, i)
                        &&& kids@[i].min_size == self.min_size
                        &&& kids@[i].well_formed()
                    }
            },
        }
    }

    /// Whether no node of the tree has a handle set.
    pub open spec fn vacant(self) -> bool
        decreases self,
    {
        &&& self.objects is None
        &&& match self.children {
            None => true,
            Some(kids) => forall|i: int| 0 <= i < kids@.len() ==> (#[trigger] kids@[i]).vacant(),
        }
    }

    /// Number of nodes of the tree.
    pub open spec fn size(self) -> nat
        decreases self,
    {
        match self.children {
            None => 1,
            Some(kids) => 1 + forest_size(kids@),
        }
    }

    /// Number of leaves of the tree.
    pub open spec fn leaf_count(self) -> nat
        decreases self,
    {
        match self.children {
            None => 1,
            Some(kids) => leaf_total(kids@),
        }
    }

    /// The leaves of the tree in breadth-first order.
    pub open spec fn leaves(self) -> Seq<QuadTree> {
        breadth_first(seq![self])
    }

    pub open spec fn spec_contains(&self, position: Vec2) -> bool {
        region_contains(self.bounds, position.x as int, position.y as int)
    }

    /// Tests whether `position` lies within this node's bounds.
    #[verifier::when_used_as_spec(spec_contains)]
    pub fn contains(&self, position: Vec2) -> (r: bool)
        ensures
            r == self.spec_contains(position),
    {
        self.bounds[0].x < position.x && position.x <= self.bounds[1].x && self.bounds[0].y
            < position.y && position.y <= self.bounds[1].y
    }

    /// Tells whether the node is occupied. In a well-formed tree a leaf
    /// is occupied exactly if it holds a handle.
    pub fn is_occupied(&self) -> (r: bool)
        ensures
            r == self.occupied(),
            self.well_formed() ==> r == (self.handles() != Set::<u64>::empty()),
    {
        self.objects.is_some()
    }

    /// Lists the leaves in breadth-first order. The order depends on the
    /// shape of the tree alone, so it is the same on every call.
    pub fn get_leaf_nodes(&self) -> (leaf_nodes: Vec<&QuadTree>)
        ensures
            leaf_nodes@.len() == self.leaves().len(),
            forall|i: int| 0 <= i < leaf_nodes@.len() ==> *leaf_nodes@[i] == self.leaves()[i],
    {
        let mut leaf_nodes: Vec<&QuadTree> = Vec::new();
        let mut node_queue: VecDeque<&QuadTree> = VecDeque::new();
        node_queue.push_back(self);
        let ghost mut found: Seq<QuadTree> = Seq::empty();
        let ghost mut pending: Seq<QuadTree> = seq![*self];
        loop
            invariant
                found.len() == leaf_nodes@.len(),
                forall|i: int| 0 <= i < found.len() ==> *leaf_nodes@[i] == found[i],
                pending.len() == node_queue@.len(),
                forall|i: int| 0 <= i < pending.len() ==> *node_queue@[i] == pending[i],
                found + breadth_first(pending) == self.leaves(),
            ensures
                found == self.leaves(),
                found.len() == leaf_nodes@.len(),
                forall|i: int| 0 <= i < found.len() ==> *leaf_nodes@[i] == found[i],
            decreases forest_size(pending),
        {
            let node = match node_queue.pop_front() {
                Some(node) => node,
                None => {
                    assert(found + Seq::<QuadTree>::empty() =~= found);
                    break ;
                },
            };
            let ghost rest = pending.drop_first();
            assert(forest_size(pending) == node.size() + forest_size(rest));
            match &node.children {
                None => {
                    leaf_nodes.push(node);
                    proof {
                        assert(found + breadth_first(pending) =~= found.push(*node)
                            + breadth_first(rest));
                        found = found.push(*node);
                        pending = rest;
                    }
                },
                Some(kids) => {
                    let ghost before = rest;
                    proof {
                        lemma_forest_size_concat(rest, kids@);
                        pending = rest;
                    }
                    let mut j: usize = 0;
                    while j < kids.len()
                        invariant
                            j <= kids@.len(),
                            pending == before + kids@.take(j as int),
                            pending.len() == node_queue@.len(),
                            forall|i: int|
                                0 <= i < pending.len() ==> *node_queue@[i] == pending[i],
                        decreases kids@.len() - j,
                    {
                        node_queue.push_back(&kids[j]);
                        proof {
                            assert(kids@.take(j + 1) =~= kids@.take(j as int).push(kids@[j as int]));
                            pending = pending.push(kids@[j as int]);
                        }
                        j += 1;
                    }
                    assert(kids@.take(j as int) =~= kids@);
                },
            }
        }
        leaf_nodes
    }

    /// Records `entity` in the leaf that contains `position`. A position
    /// outside the bounds of the tree is refused, and the tree stays as it
    /// was. A handle that the leaf already holds is not recorded twice.
    pub fn insert(&mut self, entity: u64, position: Vec2) -> (r: Result<(), ()>)
        requires
            old(self).well_formed(),
        ensures
            final(self).well_formed(),
            final(self).bounds == old(self).bounds,
            final(self).min_size == old(self).min_size,
            r is Ok <==> old(self).spec_contains(position),
            r is Err ==> *final(self) == *old(self),
            final(self)@.len() == old(self)@.len(),
            r is Ok ==> forall|i: int|
                0 <= i < old(self)@.len() ==> #[trigger] final(self)@[i] == old(self)@[i].with_handle(
                    position,
                    entity,
                ),
    {
        if !self.contains(position) {
            return Err(());
        }
        self.insert_within(entity, position);
        proof {
            lemma_relabelled_view(*old(self), *self, adding(position, entity));
        }
        Ok(())
    }

    /// Offers `entity` to the index at the point `(x, y)`: it is recorded
    /// if the point lies within the bounds of the tree, and skipped for
    /// this tick otherwise.
    pub fn note(&mut self, entity: u64, x: i64, y: i64)
        requires
            old(self).well_formed(),
        ensures
            final(self).well_formed(),
            final(self).bounds == old(self).bounds,
            final(self).min_size == old(self).min_size,
            final(self)@.len() == old(self)@.len(),
            forall|k: int|
                0 <= k < old(self)@.len() ==> #[trigger] final(self)@[k] == old(self)@[k].noting(
                    x as int,
                    y as int,
                    entity,
                ),
    {
        if -0x8000_0000 <= x && x <= 0x7fff_ffff && -0x8000_0000 <= y && y <= 0x7fff_ffff {
            let position = Vec2 { x: x as i32, y: y as i32 };
            proof {
                if !self.spec_contains(position) {
                    lemma_no_leaf_outside(*self, position);
                }
                assert forall|k: int| 0 <= k < self@.len() implies (#[trigger] self@[k]).bounds
                    == self.leaves()[k].bounds by {}
            }
            let _ = self.insert(entity, position);
        } else {
            proof {
                assert forall|k: int| 0 <= k < self@.len() implies !region_contains(
                    (#[trigger] self@[k]).bounds,
                    x as int,
                    y as int,
                ) by {}
            }
        }
    }

    /// Finds the child whose bounds contain `position`.
    fn child_containing(&self, position: Vec2) -> (i: usize)
        requires
            self.well_formed(),
            self.children is Some,
            self.spec_contains(position),
        ensures
            i < 4,
            self.children->0@[i as int].spec_contains(position),
    {
        proof {
            lemma_quadrants_partition(*self, position);
        }
        match &self.children {
            None => 0,
            Some(kids) => {
                let mut i: usize = 0;
                while i < 3 && !kids[i].contains(position)
                    invariant
                        i <= 3,
                        kids@.len() == 4,
                        forall|j: int| 0 <= j < i ==> !(#[trigger] kids@[j]).spec_contains(position),
                    decreases 3 - i,
                {
                    i += 1;
                }
                proof {
                    if !kids@[i as int].spec_contains(position) {
                        lemma_count_all_outside(kids@, position);
                    }
                }
                i
            },
        }
    }

    fn insert_within(&mut self, entity: u64, position: Vec2)
        requires
            old(self).well_formed(),
            old(self).spec_contains(position),
        ensures
            final(self).well_formed(),
            relabelled(*old(self), *final(self), adding(position, entity)),
        decreases *old(self),
    {
        if self.children.is_none() {
            match &mut self.objects {
                Some(set) => {
                    set.insert(entity);
                },
                None => {
                    let mut set: HashSet<u64> = HashSet::new();
                    set.insert(entity);
                    self.objects = Some(set);
                },
            }
            assert(self.objects->0@.contains(entity));
        } else {
            let i = self.child_containing(position);
            proof {
                lemma_quadrants_partition(*self, position);
            }
            match &mut self.children {
                None => {},
                Some(kids) => {
                    let ghost before = kids@;
                    assert(before[i as int].well_formed());
                    kids[i].insert_within(entity, position);
                    proof {
                        let ghost after = kids@;
                        assert forall|j: int| 0 <= j < 4 implies relabelled(
                            #[trigger] before[j],
                            after[j],
                            adding(position, entity),
                        ) by {
                            if j != i {
                                lemma_sole_holder(before, position, i as int, j);
                                lemma_untouched(before[j], position, entity);
                            }
                        }
                    }
                },
            }
        }
    }

    /// Empties every leaf. The nodes and their bounds stay.
    pub fn clear_objects(&mut self)
        ensures
            final(self).vacant(),
            relabelled(*old(self), *final(self), emptying()),
            old(self).well_formed() ==> final(self).well_formed(),
            final(self)@.len() == old(self)@.len(),
            forall|i: int| 0 <= i < old(self)@.len() ==> #[trigger] final(self)@[i] == old(self)@[i].emptied(),
        decreases *old(self),
    {
        if self.objects.is_some() {
            self.objects = None;
        }
        match &mut self.children {
            None => {},
            Some(kids) => {
                let ghost before = kids@;
                let mut i: usize = 0;
                while i < kids.len()
                    invariant
                        i <= before.len(),
                        kids@.len() == before.len(),
                        old(self).children is Some,
                        old(self).children->0@ == before,
                        forall|j: int|
                            0 <= j < i ==> {
                                &&& relabelled(#[trigger] before[j], kids@[j], emptying())
                                &&& kids@[j].vacant()
                                &&& (before[j].well_formed() ==> kids@[j].well_formed())
                            },
                        forall|j: int| i <= j < before.len() ==> kids@[j] == #[trigger] before[j],
                    decreases before.len() - i,
                {
                    assert(old(self).children->0@[i as int] == before[i as int]);
                    kids[i].clear_objects();
                    i += 1;
                }
                proof {
                    let ghost after = kids@;
                    assert forall|j: int| 0 <= j < after.len() implies {
                        &&& (#[trigger] after[j]).vacant()
                        &&& (before[j].well_formed() ==> after[j].well_formed())
                    } by {
                        assert(relabelled(before[j], after[j], emptying()));
                    }
                }
            },
        }
        proof {
            lemma_relabelled_view(*old(self), *self, emptying());
        }
    }

    /// Builds the tree over `bounds`, splitting down to leaves no wider
    /// than `min_size`. No leaf holds a handle yet.
    pub fn new(bounds: [Vec2; 2], min_size: i32) -> (tree: QuadTree)
        requires
            min_size > 0,
        ensures
            tree.well_formed(),
            tree.bounds == bounds,
            tree.min_size == min_size,
            tree.vacant(),
        decreases width(bounds),
    {
        let lo = bounds[0];
        let hi = bounds[1];
        let curr_size: i64 = hi.x as i64 - lo.x as i64;
        if curr_size > min_size as i64 {
            let mid = Vec2 { x: halfway(lo.x, hi.x), y: halfway(lo.y, hi.y) };
            let mut kids: Vec<QuadTree> = Vec::new();
            kids.push(QuadTree::new([lo, mid], min_size));
            kids.push(
                QuadTree::new([Vec2 { x: mid.x, y: lo.y }, Vec2 { x: hi.x, y: mid.y }], min_size),
            );
            kids.push(
                QuadTree::new([Vec2 { x: lo.x, y: mid.y }, Vec2 { x: mid.x, y: hi.y }], min_size),
            );
            kids.push(QuadTree::new([mid, hi], min_size));
            QuadTree { bounds, min_size, children: Some(kids), objects: None }
        } else {
            QuadTree { bounds, min_size, children: None, objects: None }
        }
    }
}

/// Number of nodes in the trees of a queue.
pub open spec fn forest_size(queue: Seq<QuadTree>) -> nat
    decreases queue,
{
    if queue.len() == 0 {
        0
    } else {
        queue[0].size() + forest_size(queue.drop_first())
    }
}

/// The leaves below the nodes of `queue`, in the order in which a
/// breadth-first walk that starts with this queue meets them.
pub open spec fn breadth_first(queue: Seq<QuadTree>) -> Seq<QuadTree>
    decreases forest_size(queue),
    via breadth_first_terminates
{
    if queue.len() == 0 {
        Seq::empty()
    } else {
        match queue[0].children {
            None => seq![queue[0]] + breadth_first(queue.drop_first()),
            Some(kids) => breadth_first(queue.drop_first() + kids@),
        }
    }
}

#[via_fn]
proof fn breadth_first_terminates(queue: Seq<QuadTree>) {
    if queue.len() != 0 {
        assert(forest_size(queue) == queue[0].size() + forest_size(queue.drop_first()));
        match queue[0].children {
            None => {
                assert(queue[0].size() == 1);
            },
            Some(kids) => {
                assert(queue[0].size() == 1 + forest_size(kids@));
                lemma_forest_size_concat(queue.drop_first(), kids@);
            },
        }
    }
}

proof fn lemma_forest_size_concat(a: Seq<QuadTree>, b: Seq<QuadTree>)
    ensures
        forest_size(a + b) == forest_size(a) + forest_size(b),
    decreases a.len(),
{
    if a.len() == 0 {
        assert(a + b =~= b);
    } else {
        assert((a + b).drop_first() =~= a.drop_first() + b);
        lemma_forest_size_concat(a.drop_first(), b);
    }
}

/// Whether `after` is `before` with `change` applied to each leaf: the
/// same nodes with the same bounds, and in each leaf of `after` what
/// `change` makes of that leaf of `before`.
pub open spec fn relabelled(before: QuadTree, after: QuadTree, change: spec_fn(Leaf) -> Leaf) -> bool
    decreases before,
{
    &&& after.bounds == before.bounds
    &&& after.min_size == before.min_size
    &&& match before.children {
        None => after.children is None && after.as_leaf() == change(before.as_leaf()),
        Some(kids) => {
            &&& after.children is Some
            &&& after.children->0@.len() == kids@.len()
            &&& forall|i: int|
                0 <= i < kids@.len() ==> relabelled(
                    #[trigger] kids@[i],
                    after.children->0@[i],
                    change,
                )
        },
    }
}

/// Relabelling the trees of a queue relabels the leaves that a
/// breadth-first walk meets, one for one and in the same order.
proof fn lemma_relabelled_walk(
    before: Seq<QuadTree>,
    after: Seq<QuadTree>,
    change: spec_fn(Leaf) -> Leaf,
)
    requires
        before.len() == after.len(),
        forall|i: int| 0 <= i < before.len() ==> relabelled(#[trigger] before[i], after[i], change),
    ensures
        breadth_first(after).len() == breadth_first(before).len(),
        forall|i: int|
            0 <= i < breadth_first(before).len() ==> (#[trigger] breadth_first(after)[i]).as_leaf()
                == change(breadth_first(before)[i].as_leaf()),
    decreases forest_size(before),
{
    if before.len() != 0 {
        let rest_before = before.drop_first();
        let rest_after = after.drop_first();
        assert(forest_size(before) == before[0].size() + forest_size(rest_before));
        assert(relabelled(before[0], after[0], change));
        assert forall|i: int| 0 <= i < rest_before.len() implies relabelled(
            #[trigger] rest_before[i],
            rest_after[i],
            change,
        ) by {
            assert(relabelled(before[i + 1], after[i + 1], change));
        }
        match before[0].children {
            None => {
                lemma_relabelled_walk(rest_before, rest_after, change);
                assert(breadth_first(before) == seq![before[0]] + breadth_first(rest_before));
                assert(breadth_first(after) == seq![after[0]] + breadth_first(rest_after));
                assert forall|i: int| 0 <= i < breadth_first(before).len() implies (
                #[trigger] breadth_first(after)[i]).as_leaf() == change(
                    breadth_first(before)[i].as_leaf(),
                ) by {
                    if i > 0 {
                        assert(breadth_first(after)[i] == breadth_first(rest_after)[i - 1]);
                        assert(breadth_first(before)[i] == breadth_first(rest_before)[i - 1]);
                    }
                }
            },
            Some(kids) => {
                let kids_after = after[0].children->0;
                lemma_forest_size_concat(rest_before, kids@);
                assert forall|i: int| 0 <= i < (rest_before + kids@).len() implies relabelled(
                    #[trigger] (rest_before + kids@)[i],
                    (rest_after + kids_after@)[i],
                    change,
                ) by {
                    if i < rest_before.len() {
                        assert(relabelled(rest_before[i], rest_after[i], change));
                    } else {
                        assert(relabelled(
                            kids@[i - rest_before.len()],
                            kids_after@[i - rest_before.len()],
                            change,
                        ));
                    }
                }
                lemma_relabelled_walk(rest_before + kids@, rest_after + kids_after@, change);
            },
        }
    }
}

/// Relabelling a tree relabels its view.
proof fn lemma_relabelled_view(before: QuadTree, after: QuadTree, change: spec_fn(Leaf) -> Leaf)
    requires
        relabelled(before, after, change),
    ensures
        after@.len() == before@.len(),
        forall|i: int| 0 <= i < before@.len() ==> #[trigger] after@[i] == change(before@[i]),
{
    lemma_relabelled_walk(seq![before], seq![after], change);
    assert forall|i: int| 0 <= i < before@.len() implies #[trigger] after@[i] == change(
        before@[i],
    ) by {
        assert(after@[i] == after.leaves()[i].as_leaf());
        assert(before@[i] == before.leaves()[i].as_leaf());
    }
}

/// The change that recording `entity` at `position` makes to a leaf.
pub open spec fn adding(position: Vec2, entity: u64) -> spec_fn(Leaf) -> Leaf {
    |leaf: Leaf| leaf.with_handle(position, entity)
}

/// The change that clearing makes to a leaf.
pub open spec fn emptying() -> spec_fn(Leaf) -> Leaf {
    |leaf: Leaf| leaf.emptied()
}

/// How many of `nodes` have `position` within their bounds.
pub open spec fn count_containing(nodes: Seq<QuadTree>, position: Vec2) -> nat
    decreases nodes.len(),
{
    if nodes.len() == 0 {
        0
    } else {
        (if nodes[0].spec_contains(position) {
            1nat
        } else {
            0nat
        }) + count_containing(nodes.drop_first(), position)
    }
}

proof fn lemma_count_concat(a: Seq<QuadTree>, b: Seq<QuadTree>, position: Vec2)
    ensures
        count_containing(a + b, position) == count_containing(a, position) + count_containing(
            b,
            position,
        ),
    decreases a.len(),
{
    if a.len() == 0 {
        assert(a + b =~= b);
    } else {
        assert((a + b).drop_first() =~= a.drop_first() + b);
        lemma_count_concat(a.drop_first(), b, position);
    }
}

/// The four quadrants of a split node share its points out among them:
/// each point of the node lies in one quadrant, each other point in none.
proof fn lemma_quadrants_partition(node: QuadTree, position: Vec2)
    requires
        node.well_formed(),
        node.children is Some,
    ensures
        count_containing(node.children->0@, position) == if node.spec_contains(position) {
            1nat
        } else {
            0nat
        },
{
    let kids = node.children->0@;
    let k1 = kids.drop_first();
    let k2 = k1.drop_first();
    let k3 = k2.drop_first();
    assert(k1[0] == kids[1]);
    assert(k2[0] == kids[2]);
    assert(k3[0] == kids[3]);
    assert(k3.drop_first().len() == 0);
    assert(count_containing(k3.drop_first(), position) == 0);
    reveal_with_fuel(count_containing, 5);
}

/// A breadth-first walk meets, for each point, as many leaves that
/// contain it as the queue it starts from has nodes that contain it.
proof fn lemma_breadth_first_count(queue: Seq<QuadTree>, position: Vec2)
    requires
        forall|i: int| 0 <= i < queue.len() ==> (#[trigger] queue[i]).well_formed(),
    ensures
        count_containing(breadth_first(queue), position) == count_containing(queue, position),
    decreases forest_size(queue),
{
    if queue.len() != 0 {
        let head = queue[0];
        let rest = queue.drop_first();
        assert(forest_size(queue) == head.size() + forest_size(rest));
        assert(forall|i: int| 0 <= i < rest.len() ==> rest[i] == queue[i + 1]);
        assert(count_containing(queue, position) == (if head.spec_contains(position) {
            1nat
        } else {
            0nat
        }) + count_containing(rest, position));
        match head.children {
            None => {
                lemma_breadth_first_count(rest, position);
                lemma_count_concat(seq![head], breadth_first(rest), position);
                lemma_count_single(head, position);
            },
            Some(kids) => {
                lemma_forest_size_concat(rest, kids@);
                assert forall|i: int| 0 <= i < (rest + kids@).len() implies (#[trigger] (rest
                    + kids@)[i]).well_formed() by {
                    if i >= rest.len() {
                        assert((rest + kids@)[i] == kids@[i - rest.len()]);
                    }
                }
                lemma_breadth_first_count(rest + kids@, position);
                lemma_count_concat(rest, kids@, position);
                lemma_quadrants_partition(head, position);
            },
        }
    }
}

proof fn lemma_count_all_outside(nodes: Seq<QuadTree>, position: Vec2)
    requires
        forall|i: int| 0 <= i < nodes.len() ==> !(#[trigger] nodes[i]).spec_contains(position),
    ensures
        count_containing(nodes, position) == 0,
    decreases nodes.len(),
{
    if nodes.len() != 0 {
        assert(forall|i: int| 0 <= i < nodes.len() - 1 ==> nodes.drop_first()[i] == nodes[i + 1]);
        lemma_count_all_outside(nodes.drop_first(), position);
    }
}

/// Where one node alone contains a point, a second one that contains it
/// is the same one.
proof fn lemma_sole_holder(nodes: Seq<QuadTree>, position: Vec2, i: int, j: int)
    requires
        count_containing(nodes, position) == 1,
        0 <= i < nodes.len(),
        0 <= j < nodes.len(),
        nodes[i].spec_contains(position),
        i != j,
    ensures
        !nodes[j].spec_contains(position),
{
    let at = lemma_count_one(nodes, position);
}

/// Recording a handle at a point changes nothing in a subtree that does
/// not contain the point.
proof fn lemma_untouched(node: QuadTree, position: Vec2, entity: u64)
    requires
        node.well_formed(),
        !node.spec_contains(position),
    ensures
        relabelled(node, node, adding(position, entity)),
    decreases node,
{
    match node.children {
        None => {},
        Some(kids) => {
            assert forall|i: int| 0 <= i < kids@.len() implies relabelled(
                #[trigger] kids@[i],
                kids@[i],
                adding(position, entity),
            ) by {
                assert(kids@[i].well_formed());
                lemma_untouched(kids@[i], position, entity);
            }
        },
    }
}

proof fn lemma_count_single(node: QuadTree, position: Vec2)
    ensures
        count_containing(seq![node], position) == if node.spec_contains(position) {
            1nat
        } else {
            0nat
        },
{
    assert(seq![node].drop_first() =~= Seq::<QuadTree>::empty());
    reveal_with_fuel(count_containing, 2);
}

proof fn lemma_count_none(nodes: Seq<QuadTree>, position: Vec2)
    requires
        count_containing(nodes, position) == 0,
    ensures
        forall|i: int| 0 <= i < nodes.len() ==> !(#[trigger] nodes[i]).spec_contains(position),
    decreases nodes.len(),
{
    if nodes.len() != 0 {
        lemma_count_none(nodes.drop_first(), position);
        assert forall|i: int| 0 <= i < nodes.len() implies !(#[trigger] nodes[i]).spec_contains(
            position,
        ) by {
            if i > 0 {
                assert(nodes[i] == nodes.drop_first()[i - 1]);
            }
        }
    }
}

proof fn lemma_count_one(nodes: Seq<QuadTree>, position: Vec2) -> (at: int)
    requires
        count_containing(nodes, position) == 1,
    ensures
        0 <= at < nodes.len(),
        nodes[at].spec_contains(position),
        forall|i: int|
            0 <= i < nodes.len() && (#[trigger] nodes[i]).spec_contains(position) ==> i == at,
    decreases nodes.len(),
{
    let rest = nodes.drop_first();
    assert(forall|i: int| 0 < i < nodes.len() ==> nodes[i] == rest[i - 1]);
    if nodes[0].spec_contains(position) {
        lemma_count_none(rest, position);
        0
    } else {
        lemma_count_one(rest, position) + 1
    }
}

/// Every point within the bounds of a tree lies within the bounds of
/// exactly one of its leaves. This holds of a point on a line along which
/// a node was split as of any other: it belongs to the quadrant whose
/// upper bound the line is.
pub proof fn lemma_exactly_one_leaf(tree: QuadTree, position: Vec2) -> (at: int)
    requires
        tree.well_formed(),
        tree.spec_contains(position),
    ensures
        0 <= at < tree.leaves().len(),
        tree.leaves()[at].spec_contains(position),
        forall|i: int|
            0 <= i < tree.leaves().len() && (#[trigger] tree.leaves()[i]).spec_contains(position)
                ==> i == at,
{
    lemma_breadth_first_count(seq![tree], position);
    lemma_count_single(tree, position);
    lemma_count_one(tree.leaves(), position)
}

/// No point outside the bounds of a tree lies within the bounds of any of
/// its leaves.
pub proof fn lemma_no_leaf_outside(tree: QuadTree, position: Vec2)
    requires
        tree.well_formed(),
        !tree.spec_contains(position),
    ensures
        forall|i: int|
            0 <= i < tree.leaves().len() ==> !(#[trigger] tree.leaves()[i]).spec_contains(position),
{
    lemma_breadth_first_count(seq![tree], position);
    lemma_count_single(tree, position);
    lemma_count_none(tree.leaves(), position);
}

/// A point on the line along which a node was split belongs to the
/// quadrants below the line, whose upper bound the line is, and not to
/// those above it: of the four quadrants exactly one contains it.
pub proof fn lemma_split_line_goes_low(node: QuadTree, position: Vec2)
    requires
        node.well_formed(),
        node.children is Some,
        node.spec_contains(position),
    ensures
        position.x == center(node.bounds).x ==> !node.children->0@[1].spec_contains(position)
            && !node.children->0@[3].spec_contains(position),
        position.y == center(node.bounds).y ==> !node.children->0@[2].spec_contains(position)
            && !node.children->0@[3].spec_contains(position),
        count_containing(node.children->0@, position) == 1,
{
    let kids = node.children->0@;
    assert(kids[1].bounds[0] == quadrant_lo(node.bounds, 1));
    assert(kids[2].bounds[0] == quadrant_lo(node.bounds, 2));
    assert(kids[3].bounds[0] == quadrant_lo(node.bounds, 3));
    lemma_quadrants_partition(node, position);
}

/// Clearing forgets every insertion: whatever was recorded in a leaf, and
/// wherever, the leaf is empty once it is cleared.
pub proof fn lemma_clear_forgets_insert(leaf: Leaf, position: Vec2, entity: u64)
    ensures
        leaf.with_handle(position, entity).emptied() == leaf.emptied(),
        leaf.with_handle(position, entity).emptied().objects.is_empty(),
{
}

/// What holds of every node of a queue, and of the children of every
/// node of which it holds, holds of every leaf that a breadth-first walk
/// from the queue meets.
proof fn lemma_walk_carries(queue: Seq<QuadTree>, holds: spec_fn(QuadTree) -> bool)
    requires
        forall|i: int| 0 <= i < queue.len() ==> holds(#[trigger] queue[i]),
        forall|node: QuadTree, j: int|
            #[trigger] holds(node) && node.children is Some && 0 <= j < node.children->0@.len()
                ==> holds(#[trigger] node.children->0@[j]),
    ensures
        forall|k: int|
            0 <= k < breadth_first(queue).len() ==> holds(#[trigger] breadth_first(queue)[k]),
    decreases forest_size(queue),
{
    if queue.len() != 0 {
        let head = queue[0];
        let rest = queue.drop_first();
        assert(forest_size(queue) == head.size() + forest_size(rest));
        assert(holds(head));
        assert(forall|i: int| 0 <= i < rest.len() ==> rest[i] == queue[i + 1]);
        match head.children {
            None => {
                lemma_walk_carries(rest, holds);
                assert(breadth_first(queue) == seq![head] + breadth_first(rest));
                assert forall|k: int| 0 <= k < breadth_first(queue).len() implies holds(
                    #[trigger] breadth_first(queue)[k],
                ) by {
                    if k > 0 {
                        assert(breadth_first(queue)[k] == breadth_first(rest)[k - 1]);
                    }
                }
            },
            Some(kids) => {
                lemma_forest_size_concat(rest, kids@);
                assert forall|i: int| 0 <= i < (rest + kids@).len() implies holds(
                    #[trigger] (rest + kids@)[i],
                ) by {
                    if i >= rest.len() {
                        assert((rest + kids@)[i] == head.children->0@[i - rest.len()]);
                    }
                }
                lemma_walk_carries(rest + kids@, holds);
                assert(breadth_first(queue) == breadth_first(rest + kids@));
            },
        }
    }
}

/// In a well-formed tree every leaf is itself well-formed, and so a leaf
/// is occupied exactly if its view holds a handle: what the operations
/// say of the handles of the leaves settles which leaves are occupied.
pub proof fn lemma_occupied_leaves(tree: QuadTree)
    requires
        tree.well_formed(),
    ensures
        tree@.len() == tree.leaves().len(),
        forall|k: int|
            0 <= k < tree.leaves().len() ==> {
                &&& (#[trigger] tree.leaves()[k]).well_formed()
                &&& tree.leaves()[k].children is None
                &&& tree.leaves()[k].occupied() == (tree@[k].objects != Set::<u64>::empty())
            },
{
    let holds = |node: QuadTree| node.well_formed();
    assert forall|node: QuadTree, j: int|
        #[trigger] holds(node) && node.children is Some && 0 <= j < node.children->0@.len()
            implies holds(#[trigger] node.children->0@[j]) by {}
    lemma_walk_carries(seq![tree], holds);
    lemma_walk_leaves(seq![tree]);
    assert forall|k: int| 0 <= k < tree.leaves().len() implies {
        &&& (#[trigger] tree.leaves()[k]).well_formed()
        &&& tree.leaves()[k].children is None
        &&& tree.leaves()[k].occupied() == (tree@[k].objects != Set::<u64>::empty())
    } by {
        assert(holds(tree.leaves()[k]));
        assert(tree@[k] == tree.leaves()[k].as_leaf());
    }
}

/// A breadth-first walk meets leaves only.
proof fn lemma_walk_leaves(queue: Seq<QuadTree>)
    ensures
        forall|k: int|
            0 <= k < breadth_first(queue).len() ==> (#[trigger] breadth_first(queue)[k]).children
                is None,
    decreases forest_size(queue),
{
    if queue.len() != 0 {
        let head = queue[0];
        let rest = queue.drop_first();
        assert(forest_size(queue) == head.size() + forest_size(rest));
        match head.children {
            None => {
                lemma_walk_leaves(rest);
                assert forall|k: int| 0 <= k < breadth_first(queue).len() implies (
                #[trigger] breadth_first(queue)[k]).children is None by {
                    if k > 0 {
                        assert(breadth_first(queue)[k] == breadth_first(rest)[k - 1]);
                    }
                }
            },
            Some(kids) => {
                lemma_forest_size_concat(rest, kids@);
                lemma_walk_leaves(rest + kids@);
            },
        }
    }
}

/// Extent of a rectangle along the second axis.
pub open spec fn depth(bounds: [Vec2; 2]) -> int {
    bounds[1].y - bounds[0].y
}

/// Whether a tree is cut so that its leaves keep `room`: it is wider than
/// `room`, at most one step less deep than wide, and splits no node
/// that is not wider than twice `room` and one.
pub open spec fn spacious(node: QuadTree, room: int) -> bool {
    &&& node.well_formed()
    &&& width(node.bounds) > room
    &&& depth(node.bounds) >= width(node.bounds) - 1
    &&& node.min_size >= 2 * room + 1
}

proof fn lemma_spacious_children(node: QuadTree, room: int, j: int)
    requires
        spacious(node, room),
        node.children is Some,
        0 <= j < node.children->0@.len(),
    ensures
        spacious(node.children->0@[j], room),
{
    let kid = node.children->0@[j];
    assert(kid.bounds[0] == quadrant_lo(node.bounds, j));
    assert(kid.bounds[1] == quadrant_hi(node.bounds, j));
}

/// The leaves of a spacious tree are wider than `room` and at least as
/// deep as `room`. Every tree that `new` builds over a square wider than
/// `room`, with a minimum leaf size of at least twice `room` and one, is
/// spacious.
pub proof fn lemma_leaves_keep_room(tree: QuadTree, room: int)
    requires
        spacious(tree, room),
    ensures
        forall|k: int|
            0 <= k < tree@.len() ==> width((#[trigger] tree@[k]).bounds) > room && depth(
                tree@[k].bounds,
            ) >= room,
{
    let holds = |node: QuadTree| spacious(node, room);
    assert forall|node: QuadTree, j: int|
        #[trigger] holds(node) && node.children is Some && 0 <= j < node.children->0@.len()
            implies holds(#[trigger] node.children->0@[j]) by {
        lemma_spacious_children(node, room, j);
    }
    lemma_walk_carries(seq![tree], holds);
    assert forall|k: int| 0 <= k < tree@.len() implies width((#[trigger] tree@[k]).bounds) > room
        && depth(tree@[k].bounds) >= room by {
        assert(holds(tree.leaves()[k]));
        assert(tree@[k] == tree.leaves()[k].as_leaf());
    }
}

/// Two to the power of `levels`.
pub open spec fn two_to(levels: nat) -> nat
    decreases levels,
{
    if levels == 0 {
        1
    } else {
        2 * two_to((levels - 1) as nat)
    }
}

/// Four to the power of `levels`.
pub open spec fn four_to(levels: nat) -> nat
    decreases levels,
{
    if levels == 0 {
        1
    } else {
        4 * four_to((levels - 1) as nat)
    }
}

/// Number of leaves in the trees of a queue.
pub open spec fn leaf_total(queue: Seq<QuadTree>) -> nat
    decreases queue,
{
    if queue.len() == 0 {
        0
    } else {
        queue[0].leaf_count() + leaf_total(queue.drop_first())
    }
}

proof fn lemma_leaf_total_concat(a: Seq<QuadTree>, b: Seq<QuadTree>)
    ensures
        leaf_total(a + b) == leaf_total(a) + leaf_total(b),
    decreases a.len(),
{
    if a.len() == 0 {
        assert(a + b =~= b);
    } else {
        assert((a + b).drop_first() =~= a.drop_first() + b);
        lemma_leaf_total_concat(a.drop_first(), b);
    }
}

/// A breadth-first walk meets each leaf of its queue once.
proof fn lemma_walk_counts_leaves(queue: Seq<QuadTree>)
    ensures
        breadth_first(queue).len() == leaf_total(queue),
    decreases forest_size(queue),
{
    if queue.len() != 0 {
        let head = queue[0];
        let rest = queue.drop_first();
        assert(forest_size(queue) == head.size() + forest_size(rest));
        assert(leaf_total(queue) == head.leaf_count() + leaf_total(rest));
        match head.children {
            None => {
                lemma_walk_counts_leaves(rest);
                assert(breadth_first(queue) == seq![head] + breadth_first(rest));
            },
            Some(kids) => {
                lemma_forest_size_concat(rest, kids@);
                lemma_walk_counts_leaves(rest + kids@);
                lemma_leaf_total_concat(rest, kids@);
                assert(breadth_first(queue) == breadth_first(rest + kids@));
            },
        }
    }
}

proof fn lemma_even_node(node: QuadTree, levels: nat)
    requires
        node.well_formed(),
        width(node.bounds) == node.min_size * two_to(levels),
    ensures
        node.leaf_count() == four_to(levels),
    decreases levels,
{
    let m = node.min_size as int;
    if levels == 0 {
        assert(m * 1 == m);
    } else {
        let below = two_to((levels - 1) as nat);
        let half = m * below;
        assert(below >= 1) by {
            lemma_two_to_positive((levels - 1) as nat);
        }
        assert(m * (2 * below) == 2 * half) by (nonlinear_arith)
            requires
                half == m * below,
        ;
        assert(half >= m) by (nonlinear_arith)
            requires
                half == m * below,
                below >= 1,
                m > 0,
        ;
        let kids = node.children->0@;
        assert forall|j: int| 0 <= j < 4 implies (#[trigger] kids[j]).leaf_count() == four_to(
            (levels - 1) as nat,
        ) by {
            assert(kids[j].bounds[0] == quadrant_lo(node.bounds, j));
            assert(kids[j].bounds[1] == quadrant_hi(node.bounds, j));
            lemma_even_node(kids[j], (levels - 1) as nat);
        }
        let k1 = kids.drop_first();
        let k2 = k1.drop_first();
        let k3 = k2.drop_first();
        assert(k1[0] == kids[1]);
        assert(k2[0] == kids[2]);
        assert(k3[0] == kids[3]);
        assert(k3.drop_first().len() == 0);
        assert(leaf_total(k3.drop_first()) == 0);
        assert(leaf_total(k3) == kids[3].leaf_count());
        assert(leaf_total(k2) == kids[2].leaf_count() + leaf_total(k3));
        assert(leaf_total(k1) == kids[1].leaf_count() + leaf_total(k2));
        assert(leaf_total(kids) == kids[0].leaf_count() + leaf_total(k1));
    }
}

proof fn lemma_two_to_positive(levels: nat)
    ensures
        two_to(levels) >= 1,
    decreases levels,
{
    if levels != 0 {
        lemma_two_to_positive((levels - 1) as nat);
    }
}

/// A tree whose width is its minimum leaf size doubled `levels` times has
/// four to the power of `levels` leaves: each level of splitting
/// quadruples them.
pub proof fn lemma_leaf_count(tree: QuadTree, levels: nat)
    requires
        tree.well_formed(),
        width(tree.bounds) == tree.min_size * two_to(levels),
    ensures
        tree.leaves().len() == four_to(levels),
        tree@.len() == four_to(levels),
{
    lemma_even_node(tree, levels);
    lemma_walk_counts_leaves(seq![tree]);
    assert(seq![tree].drop_first() =~= Seq::<QuadTree>::empty());
    assert(leaf_total(seq![tree]) == tree.leaf_count() + leaf_total(seq![tree].drop_first()));
}

/// A tree in which no node has a handle set shows no handle in any leaf.
pub proof fn lemma_vacant_view(tree: QuadTree)
    requires
        tree.vacant(),
    ensures
        forall|k: int| 0 <= k < tree@.len() ==> (#[trigger] tree@[k]).objects == Set::<u64>::empty(),
{
    lemma_vacant_walk(seq![tree]);
    assert forall|k: int| 0 <= k < tree@.len() implies (#[trigger] tree@[k]).objects == Set::<
        u64,
    >::empty() by {
        assert(tree@[k] == tree.leaves()[k].as_leaf());
        assert(tree.leaves()[k].objects is None);
    }
}

proof fn lemma_vacant_walk(queue: Seq<QuadTree>)
    requires
        forall|i: int| 0 <= i < queue.len() ==> (#[trigger] queue[i]).vacant(),
    ensures
        forall|k: int|
            0 <= k < breadth_first(queue).len() ==> (#[trigger] breadth_first(queue)[k]).objects
                is None,
    decreases forest_size(queue),
{
    if queue.len() != 0 {
        let head = queue[0];
        let rest = queue.drop_first();
        assert(forest_size(queue) == head.size() + forest_size(rest));
        assert(head.vacant());
        assert(forall|i: int| 0 <= i < rest.len() ==> rest[i] == queue[i + 1]);
        match head.children {
            None => {
                lemma_vacant_walk(rest);
                assert forall|k: int| 0 <= k < breadth_first(queue).len() implies (
                #[trigger] breadth_first(queue)[k]).objects is None by {
                    if k > 0 {
                        assert(breadth_first(queue)[k] == breadth_first(rest)[k - 1]);
                    }
                }
            },
            Some(kids) => {
                lemma_forest_size_concat(rest, kids@);
                assert forall|i: int| 0 <= i < (rest + kids@).len() implies (#[trigger] (rest
                    + kids@)[i]).vacant() by {
                    if i >= rest.len() {
                        assert((rest + kids@)[i] == kids@[i - rest.len()]);
                    }
                }
                lemma_vacant_walk(rest + kids@);
            },
        }
    }
}

/// Computes the midpoint of two coordinates.
fn halfway(a: i32, b: i32) -> (m: i32)
    ensures
        m == midpoint(a as int, b as int),
        a <= b ==> a <= m <= b,
        b <= a ==> b <= m <= a,
        b - a >= 2 ==> a < m < b,
{
    if b >= a {
        (a as i64 + (b as i64 - a as i64) / 2) as i32
    } else {
        (a as i64 - (a as i64 - b as i64) / 2) as i32
    }
}

} // verus!
