//! Tree nodes: a point, the identifier of its parent and the edge that
//! leads to it.

use crate::math::{
    dist, euclidean_distance, is_sqrt_floor, point_in_range, sq_dist, squared_distance, Point2D,
    DIST_LIMIT,
};
use vstd::prelude::*;

verus! {

/// `i` is the first index of `pts` whose point is nearest to `p`.
pub open spec fn is_first_nearest(pts: Seq<Point2D>, p: Point2D, i: int) -> bool {
    &&& 0 <= i < pts.len()
    &&& forall|j: int| 0 <= j < pts.len() ==> sq_dist(p, pts[i]) <= sq_dist(p, #[trigger] pts[j])
    &&& forall|j: int| 0 <= j < i ==> sq_dist(p, pts[i]) < sq_dist(p, #[trigger] pts[j])
}

/// The first index of `pts` whose point is nearest to `p`.
pub open spec fn first_nearest(pts: Seq<Point2D>, p: Point2D) -> int {
    choose|i: int| is_first_nearest(pts, p, i)
}

/// There is one first nearest index at most.
pub proof fn lemma_first_nearest_is(pts: Seq<Point2D>, p: Point2D, i: int)
    requires
        is_first_nearest(pts, p, i),
    ensures
        first_nearest(pts, p) == i,
{
    let j = first_nearest(pts, p);
    assert(is_first_nearest(pts, p, j));
    if i < j {
        assert(sq_dist(p, pts[j]) < sq_dist(p, pts[i]));
    } else if j < i {
        assert(sq_dist(p, pts[i]) < sq_dist(p, pts[j]));
    }
}

/// What a planner reads of a tree node.
pub trait Node: Sized {
    /// The point at which the node lies.
    spec fn spec_point(&self) -> Point2D;

    /// The identifier of the node.
    spec fn spec_id(&self) -> usize;

    /// The identifier of the node's parent, where it has one.
    spec fn spec_parent_id(&self) -> Option<usize>;

    /// A node at `pt` with identifier 0, no parent and no edge.
    fn new(pt: Point2D) -> (r: Self)
        ensures
            r.spec_point() == pt,
            r.spec_id() == 0,
            r.spec_parent_id() is None,
    ;

    /// The point at which the node lies.
    fn point(&self) -> (r: Point2D)
        ensures
            r == self.spec_point(),
    ;

    /// The identifier of the node.
    fn id(&self) -> (r: usize)
        ensures
            r == self.spec_id(),
    ;

    /// The identifier of the node's parent, where it has one.
    fn parent_id(&self) -> (r: Option<usize>)
        ensures
            r == self.spec_parent_id(),
    ;

    /// The displacement from `other_node` to this node.
    fn get_delta(&self, other_node: &Self) -> (r: (i64, i64))
        requires
            point_in_range(self.spec_point()),
            point_in_range(other_node.spec_point()),
        ensures
            r.0 == self.spec_point().0 - other_node.spec_point().0,
            r.1 == self.spec_point().1 - other_node.spec_point().1,
    ;

    /// Floored distance between two nodes.
    fn distance_between(&self, other_node: &Self) -> (r: u64)
        requires
            point_in_range(self.spec_point()),
            point_in_range(other_node.spec_point()),
        ensures
            r == dist(self.spec_point(), other_node.spec_point()),
            is_sqrt_floor(sq_dist(self.spec_point(), other_node.spec_point()), r as int),
            r < DIST_LIMIT,
    {
        let (dx, dy) = self.get_delta(other_node);
        euclidean_distance(&(dx, dy))
    }

    /// Floored distance between this node and a position.
    fn distance_between_pos(&self, pos: Point2D) -> (r: u64)
        requires
            point_in_range(self.spec_point()),
            point_in_range(pos),
        ensures
            r == dist(self.spec_point(), pos),
            is_sqrt_floor(sq_dist(self.spec_point(), pos), r as int),
            r < DIST_LIMIT,
    ;

    /// The index of the node of `node_list` that is nearest to this one,
    /// the first of them where several are equally near, by a scan of the
    /// whole list. There is none in an empty list.
    fn get_nearest_node_index(&self, node_list: &Vec<Self>) -> (r: Option<usize>)
        requires
            point_in_range(self.spec_point()),
            forall|j: int|
                0 <= j < node_list.len() ==> point_in_range((#[trigger] node_list[j]).spec_point()),
        ensures
            r is None <==> node_list.len() == 0,
            r matches Some(i) ==> is_first_nearest(
                Seq::new(node_list.len() as nat, |j: int| node_list[j].spec_point()),
                self.spec_point(),
                i as int,
            ),
    {
        if node_list.len() == 0 {
            return None;
        }
        let ghost pts = Seq::new(node_list.len() as nat, |j: int| node_list[j].spec_point());
        let here = self.point();
        let first = node_list[0].point();
        let mut min_dist: u64 = squared_distance(&here, &first);
        let mut min_ind: usize = 0;
        let mut idx: usize = 1;
        while idx < node_list.len()
            invariant
                1 <= idx <= node_list.len(),
                min_ind < idx,
                here == self.spec_point(),
                point_in_range(here),
                pts == Seq::new(node_list.len() as nat, |j: int| node_list[j].spec_point()),
                forall|j: int|
                    0 <= j < node_list.len() ==> point_in_range(
                        (#[trigger] node_list[j]).spec_point(),
                    ),
                min_dist == sq_dist(here, pts[min_ind as int]),
                forall|j: int| 0 <= j < idx ==> min_dist <= sq_dist(here, #[trigger] pts[j]),
                forall|j: int| 0 <= j < min_ind ==> min_dist < sq_dist(here, #[trigger] pts[j]),
            decreases node_list.len() - idx,
        {
            let there = node_list[idx].point();
            assert(there == pts[idx as int]);
            let d = squared_distance(&here, &there);
            if d < min_dist {
                min_dist = d;
                min_ind = idx;
            }
            idx += 1;
        }
        Some(min_ind)
    }
}

/// A tree node: an identified point, the identifier of its parent, and the
/// points of the edge that leads from the parent to it.
#[derive(Debug)]
pub struct RRTNode {
    pub id: usize,
    pub parent_id: Option<usize>,
    pub point: Point2D,
    pub path: Vec<Point2D>,
}

/// A tree node together with the length of the way from the root to it.
#[derive(Debug)]
pub struct RRTStarNode {
    pub node: RRTNode,
    pub cost: u64,
}

/// A copy of a list of points.
pub fn copy_points(points: &Vec<Point2D>) -> (r: Vec<Point2D>)
    ensures
        r@ == points@,
{
    let mut out: Vec<Point2D> = Vec::new();
    let mut i: usize = 0;
    while i < points.len()
        invariant
            i <= points.len(),
            out@ == points@.subrange(0, i as int),
        decreases points.len() - i,
    {
        out.push(points[i]);
        i += 1;
        assert(out@ == points@.subrange(0, i as int));
    }
    assert(out@ == points@);
    out
}

impl RRTNode {
    /// The two nodes hold the same values.
    pub open spec fn same_as(&self, other: &RRTNode) -> bool {
        &&& self.id == other.id
        &&& self.parent_id == other.parent_id
        &&& self.point == other.point
        &&& self.path@ == other.path@
    }
}

impl RRTStarNode {
    /// The two nodes hold the same values.
    pub open spec fn same_as(&self, other: &RRTStarNode) -> bool {
        self.node.same_as(&other.node) && self.cost == other.cost
    }
}

impl Clone for RRTNode {
    fn clone(&self) -> (r: Self)
        ensures
            r.same_as(self),
    {
        RRTNode {
            id: self.id,
            parent_id: self.parent_id,
            point: self.point,
            path: copy_points(&self.path),
        }
    }
}

impl Clone for RRTStarNode {
    fn clone(&self) -> (r: Self)
        ensures
            r.same_as(self),
    {
        RRTStarNode { node: self.node.clone(), cost: self.cost }
    }
}

impl Node for RRTNode {
    open spec fn spec_point(&self) -> Point2D {
        self.point
    }

    open spec fn spec_id(&self) -> usize {
        self.id
    }

    open spec fn spec_parent_id(&self) -> Option<usize> {
        self.parent_id
    }

    fn new(pt: Point2D) -> (r: Self)
        ensures
            r.id == 0,
            r.parent_id is None,
            r.point == pt,
            r.path@.len() == 0,
    {
        Self { id: 0, parent_id: None, point: pt, path: Vec::new() }
    }

    fn id(&self) -> (r: usize) {
        self.id
    }

    fn parent_id(&self) -> (r: Option<usize>) {
        self.parent_id
    }

    fn point(&self) -> (r: Point2D) {
        (self.point.0, self.point.1)
    }

    fn get_delta(&self, other_node: &Self) -> (r: (i64, i64)) {
        let dx: i64 = self.point.0 - other_node.point.0;
        let dy: i64 = self.point.1 - other_node.point.1;
        (dx, dy)
    }

    fn distance_between_pos(&self, pos: Point2D) -> (r: u64) {
        let dx: i64 = self.point.0 - pos.0;
        let dy: i64 = self.point.1 - pos.1;
        euclidean_distance(&(dx, dy))
    }
}

impl Node for RRTStarNode {
    open spec fn spec_point(&self) -> Point2D {
        self.node.point
    }

    open spec fn spec_id(&self) -> usize {
        self.node.id
    }

    open spec fn spec_parent_id(&self) -> Option<usize> {
        self.node.parent_id
    }

    fn new(pt: Point2D) -> (r: Self)
        ensures
            r.node.id == 0,
            r.node.parent_id is None,
            r.node.point == pt,
            r.node.path@.len() == 0,
            r.cost == 0,
    {
        Self { node: RRTNode::new(pt), cost: 0 }
    }

    fn point(&self) -> (r: Point2D) {
        self.node.point()
    }

    fn id(&self) -> (r: usize) {
        self.node.id()
    }

    fn parent_id(&self) -> (r: Option<usize>) {
        self.node.parent_id()
    }

    fn get_delta(&self, other_node: &Self) -> (r: (i64, i64)) {
        self.node.get_delta(&other_node.node)
    }

    fn distance_between_pos(&self, pos: Point2D) -> (r: u64) {
        self.node.distance_between_pos(pos)
    }
}

} // verus!
