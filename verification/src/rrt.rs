//! The rapidly-exploring random tree: grown from the start, one steered
//! edge at a time, until a node comes within reach of the goal.

use crate::bound::{all_in_range, lemma_sample_between, sample_point, Collision, RectangleBounds};
use crate::math::{
    dist, div_round_to_zero, div_toward_zero, in_range, lemma_dist_zero_iff_same,
    lemma_div_toward_zero_bounds, lemma_sqrt_floor_exists, point_in_range, sq_dist, Point2D,
    DIST_LIMIT,
};
use crate::path::Path2D;
use crate::planner::{blocked_by_any, hits_any, obstacles_well_formed, Planner};
use crate::rng::{fresh_rng, random_in_range, rng_from_seed};
use crate::rrtnode::{first_nearest, is_first_nearest, lemma_first_nearest_is, Node, RRTNode};
use rand::rngs::StdRng;
use vstd::prelude::*;

verus! {

/// The length that an edge toward a target at distance `d` is grown to: the
/// distance itself, but no more than `expand`.
pub open spec fn steer_reach(d: int, expand: int) -> int {
    if expand > d {
        d
    } else {
        expand
    }
}

/// The number of whole steps of length `res` in an edge toward a target at
/// distance `d`.
pub open spec fn steer_count(d: int, expand: int, res: int) -> int {
    if steer_reach(d, expand) > 0 {
        steer_reach(d, expand) / res
    } else {
        0
    }
}

/// After the whole steps the target is within one step, and the edge ends
/// on the target itself.
pub open spec fn steer_snaps(d: int, expand: int, res: int) -> bool {
    d - steer_count(d, expand, res) * res <= res
}

/// The points of the edge grown from `from` toward `to`: `from` itself, a
/// point after each whole step of length `res`, and `to` where it is then
/// within one step.
pub open spec fn steer_path(from: Point2D, to: Point2D, expand: int, res: int) -> Seq<Point2D> {
    let d = dist(from, to);
    let n = steer_count(d, expand, res);
    let steps = seq![from] + Seq::new(
        n as nat,
        |k: int| sample_point(from, to, (k + 1) * res, d),
    );
    if steer_snaps(d, expand, res) {
        steps.push(to)
    } else {
        steps
    }
}

/// A steered edge begins at the point it is steered from.
pub proof fn lemma_steer_path_ends(from: Point2D, to: Point2D, expand: int, res: int)
    ensures
        steer_path(from, to, expand, res).len() >= 1,
        steer_path(from, to, expand, res)[0] == from,
{
}

/// The part `idx / d` of the displacement `dx`, rounded toward zero, is no
/// larger than the exact part.
proof fn lemma_step_size(dx: int, idx: int, d: int)
    requires
        0 <= idx <= d,
        d > 0,
    ensures
        ({
            let t = div_toward_zero(idx * dx, d);
            (d * d) * (t * t) <= (idx * idx) * (dx * dx)
        }),
{
    let a = idx * dx;
    let t = div_toward_zero(a, d);
    lemma_div_toward_zero_bounds(a, d);
    let td = t * d;
    assert((0 <= td <= a) || (a <= td <= 0)) by (nonlinear_arith)
        requires
            td == t * d,
            d > 0,
            (0 <= t && td <= a) || (t <= 0 && td >= a),
    ;
    assert(td * td <= a * a) by (nonlinear_arith)
        requires
            (0 <= td <= a) || (a <= td <= 0),
    ;
    assert(td * td == (d * d) * (t * t) && a * a == (idx * idx) * (dx * dx)) by (nonlinear_arith)
        requires
            td == t * d,
            a == idx * dx,
    ;
}

/// The point `idx` whole units along the way from `from` toward `to` lies
/// no farther from `from` than `idx`.
pub proof fn lemma_step_length(from: Point2D, to: Point2D, idx: int)
    requires
        point_in_range(from),
        point_in_range(to),
        0 <= idx <= dist(from, to),
        dist(from, to) > 0,
    ensures
        point_in_range(sample_point(from, to, idx, dist(from, to))),
        0 <= dist(from, sample_point(from, to, idx, dist(from, to))) <= idx,
{
    let d = dist(from, to);
    let p = sample_point(from, to, idx, d);
    lemma_sample_between(from, to, idx, d);
    let dx = to.0 - from.0;
    let dy = to.1 - from.1;
    let tx = div_toward_zero(idx * dx, d);
    let ty = div_toward_zero(idx * dy, d);
    lemma_step_size(dx, idx, d);
    lemma_step_size(dy, idx, d);
    lemma_dist_zero_iff_same(from, to);
    lemma_dist_zero_iff_same(from, p);
    lemma_sqrt_floor_exists(sq_dist(from, to));
    lemma_sqrt_floor_exists(sq_dist(from, p));
    let whole = sq_dist(from, to);
    let part = sq_dist(from, p);
    let f = dist(from, p);
    assert(whole == dx * dx + dy * dy) by (nonlinear_arith)
        requires
            whole == (from.0 - to.0) * (from.0 - to.0) + (from.1 - to.1) * (from.1 - to.1),
            dx == to.0 - from.0,
            dy == to.1 - from.1,
    ;
    assert(part == tx * tx + ty * ty) by (nonlinear_arith)
        requires
            part == (from.0 - p.0) * (from.0 - p.0) + (from.1 - p.1) * (from.1 - p.1),
            p.0 - from.0 == tx,
            p.1 - from.1 == ty,
    ;
    let dd = d * d;
    let ii = idx * idx;
    assert(dd * part <= ii * whole) by (nonlinear_arith)
        requires
            dd * (tx * tx) <= ii * (dx * dx),
            dd * (ty * ty) <= ii * (dy * dy),
            part == tx * tx + ty * ty,
            whole == dx * dx + dy * dy,
    ;
    let top = (d + 1) * (d + 1);
    let cap = (idx + 1) * (idx + 1);
    assert(ii * whole <= ii * top && (idx > 0 ==> ii * whole < ii * top) && (idx == 0 ==> ii
        * whole == 0)) by (nonlinear_arith)
        requires
            ii == idx * idx,
            whole < top,
            idx >= 0,
    ;
    assert(ii * top <= dd * cap && dd * cap > 0) by (nonlinear_arith)
        requires
            ii == idx * idx,
            dd == d * d,
            top == (d + 1) * (d + 1),
            cap == (idx + 1) * (idx + 1),
            0 <= idx <= d,
            d > 0,
    ;
    assert(part < cap) by (nonlinear_arith)
        requires
            dd * part < dd * cap,
            dd == d * d,
            d > 0,
    ;
    assert(f <= idx) by (nonlinear_arith)
        requires
            f * f <= part,
            part < cap,
            cap == (idx + 1) * (idx + 1),
            f >= 0,
            idx >= 0,
    ;
}

/// A steered edge ends no farther from its beginning than the expansion
/// distance and one step; an edge that does not end on its target ends
/// within the expansion distance.
pub proof fn lemma_steered_edge_length(from: Point2D, to: Point2D, expand: int, res: int)
    requires
        point_in_range(from),
        point_in_range(to),
        res > 0,
    ensures
        ({
            let end = steer_path(from, to, expand, res).last();
            let reach = if expand > 0 {
                expand
            } else {
                0
            };
            &&& 0 <= dist(from, end) <= reach + res
            &&& end != to ==> dist(from, end) <= reach
        }),
{
    let d = dist(from, to);
    let n = steer_count(d, expand, res);
    let end = steer_path(from, to, expand, res).last();
    let reach = steer_reach(d, expand);
    lemma_dist_zero_iff_same(from, to);
    lemma_dist_zero_iff_same(from, from);
    lemma_dist_zero_iff_same(from, end);
    assert(0 <= n && n * res <= (if reach > 0 {
        reach
    } else {
        0
    }) < n * res + res) by (nonlinear_arith)
        requires
            n == (if reach > 0 {
                reach / res
            } else {
                0
            }),
            res > 0,
    ;
    if steer_snaps(d, expand, res) {
        assert(end == to);
    } else if n == 0 {
        assert(end == from);
    } else {
        let steps = Seq::new(n as nat, |k: int| sample_point(from, to, (k + 1) * res, d));
        assert(end == steps[n - 1]);
        assert((n - 1 + 1) * res == n * res) by (nonlinear_arith);
        lemma_step_length(from, to, n * res);
    }
}

/// The points of the nodes, in the order of the nodes.
pub open spec fn node_points(nodes: Seq<RRTNode>) -> Seq<Point2D> {
    Seq::new(nodes.len(), |j: int| nodes[j].point)
}

/// The edge stored in the node `child` leads from the point of `parent`
/// to the node's own point.
pub open spec fn edge_links(parent: Point2D, child: RRTNode) -> bool {
    &&& child.path@.len() >= 1
    &&& child.path@[0] == parent
    &&& child.path@.last() == child.point
}

/// The nodes form a tree rooted at `start`: each node is identified by its
/// place in the list, the first node is the root at `start`, and every
/// other node names a node before it as its parent and stores the edge that
/// leads from there to it.
pub open spec fn tree_ok(nodes: Seq<RRTNode>, start: Point2D) -> bool {
    &&& nodes.len() >= 1
    &&& nodes[0].parent_id is None
    &&& nodes[0].point == start
    &&& forall|i: int|
        0 <= i < nodes.len() ==> (#[trigger] nodes[i]).id == i && point_in_range(nodes[i].point)
    &&& forall|i: int|
        1 <= i < nodes.len() ==> match (#[trigger] nodes[i]).parent_id {
            Some(p) => p < i && edge_links(nodes[p as int].point, nodes[i]),
            None => false,
        }
}

/// The points `path` are an edge steered from `from` toward some target.
pub open spec fn is_steered(from: Point2D, path: Seq<Point2D>, expand: int, res: int) -> bool {
    exists|target: Point2D| path == #[trigger] steer_path(from, target, expand, res)
}

/// Every node but the root stores an edge that was steered from its
/// parent.
pub open spec fn edges_steered(nodes: Seq<RRTNode>, expand: int, res: int) -> bool {
    forall|i: int|
        1 <= i < nodes.len() ==> is_steered(
            nodes[parent_place(nodes[i].parent_id)].point,
            (#[trigger] nodes[i]).path@,
            expand,
            res,
        )
}

/// The place of a node's parent, or `-1` for a node without one.
pub open spec fn parent_place(parent_id: Option<usize>) -> int {
    match parent_id {
        Some(p) => p as int,
        None => -1,
    }
}

/// The points on the way from a node at `point` up to the root, the node's
/// own point first.
pub open spec fn chain_points(nodes: Seq<RRTNode>, point: Point2D, parent_id: Option<usize>) -> Seq<
    Point2D,
>
    decreases parent_place(parent_id) + 1,
{
    match parent_id {
        Some(p) => if p < nodes.len() && parent_place(nodes[p as int].parent_id) < p {
            seq![point] + chain_points(nodes, nodes[p as int].point, nodes[p as int].parent_id)
        } else {
            seq![point]
        },
        None => seq![point],
    }
}

/// In a tree the way up from any node ends at the root, and holds no more
/// points than the node's place in the list plus one: no node is met
/// twice.
pub proof fn lemma_chain_reaches_root(nodes: Seq<RRTNode>, start: Point2D, i: int)
    requires
        tree_ok(nodes, start),
        0 <= i < nodes.len(),
    ensures
        chain_points(nodes, nodes[i].point, nodes[i].parent_id).len() <= i + 1,
        chain_points(nodes, nodes[i].point, nodes[i].parent_id).len() <= nodes.len(),
        chain_points(nodes, nodes[i].point, nodes[i].parent_id)[0] == nodes[i].point,
        chain_points(nodes, nodes[i].point, nodes[i].parent_id).last() == start,
    decreases i,
{
    if i > 0 {
        let p = nodes[i].parent_id->0 as int;
        lemma_chain_reaches_root(nodes, start, p);
        assert(parent_place(nodes[p].parent_id) < p) by {
            if p > 0 {
                assert(nodes[p].parent_id is Some);
            }
        }
    }
}

/// The node `i` hangs on the first of the nodes before it that is nearest
/// to `target`, by the edge steered from there toward `target`.
pub open spec fn grown_toward(
    nodes: Seq<RRTNode>,
    i: int,
    target: Point2D,
    expand: int,
    res: int,
) -> bool {
    let p = parent_place(nodes[i].parent_id);
    &&& is_first_nearest(node_points(nodes.subrange(0, i)), target, p)
    &&& nodes[i].path@ == steer_path(nodes[p].point, target, expand, res)
}

/// The node `i` was grown from the node that was then nearest to some
/// sample.
pub open spec fn grown_from_nearest(nodes: Seq<RRTNode>, i: int, expand: int, res: int) -> bool {
    exists|target: Point2D| #[trigger] grown_toward(nodes, i, target, expand, res)
}

/// Every node but the root, up to the place `upto`, was grown from the
/// node that was then nearest to some sample.
pub open spec fn grown_upto(nodes: Seq<RRTNode>, upto: int, expand: int, res: int) -> bool {
    forall|i: int|
        1 <= i < upto && i < nodes.len() ==> #[trigger] grown_from_nearest(nodes, i, expand, res)
}

/// Nodes that were grown from their nearest nodes stay so when a node
/// joins the tree, and the new node counts among them where it was grown
/// from the node nearest to `target`.
pub proof fn lemma_grown_after_push(
    before: Seq<RRTNode>,
    after: Seq<RRTNode>,
    target: Point2D,
    expand: int,
    res: int,
)
    requires
        after.len() == before.len() + 1,
        after.drop_last() == before,
        grown_upto(before, before.len() as int, expand, res),
    ensures
        grown_upto(after, before.len() as int, expand, res),
        grown_toward(after, before.len() as int, target, expand, res) ==> grown_upto(
            after,
            after.len() as int,
            expand,
            res,
        ),
{
    assert forall|i: int| 1 <= i < before.len() implies #[trigger] grown_from_nearest(
        after,
        i,
        expand,
        res,
    ) by {
        assert(grown_from_nearest(before, i, expand, res));
        let t = choose|t: Point2D| #[trigger] grown_toward(before, i, t, expand, res);
        assert(after[i] == before[i]);
        assert(after.subrange(0, i) == before.subrange(0, i));
        let p = parent_place(before[i].parent_id);
        assert(node_points(before.subrange(0, i)).len() == i);
        assert(after[p] == before[p]);
        assert(grown_toward(after, i, t, expand, res));
    }
}

/// A tree of steered edges stays one when a node joins it whose edge was
/// steered from its parent toward `target`.
pub proof fn lemma_steered_after_push(
    before: Seq<RRTNode>,
    after: Seq<RRTNode>,
    target: Point2D,
    expand: int,
    res: int,
)
    requires
        after.len() == before.len() + 1,
        after.drop_last() == before,
        after.last().parent_id matches Some(p) && p < before.len() && after.last().path@
            == steer_path(before[p as int].point, target, expand, res),
        forall|i: int|
            1 <= i < before.len() ==> 0 <= parent_place((#[trigger] before[i]).parent_id)
                < before.len(),
    ensures
        edges_steered(before, expand, res) ==> edges_steered(after, expand, res),
{
    if edges_steered(before, expand, res) {
        assert forall|i: int| 1 <= i < after.len() implies is_steered(
            after[parent_place(after[i].parent_id)].point,
            (#[trigger] after[i]).path@,
            expand,
            res,
        ) by {
            if i < before.len() {
                assert(after[i] == before[i]);
                let p = parent_place(before[i].parent_id);
                assert(after[p] == before[p]);
            } else {
                let p = after.last().parent_id->0 as int;
                assert(after[p] == before[p]);
            }
        }
    }
}

/// The tree planner: its configuration, its obstacles and its tree.
pub struct RRT<'a> {
    pub start: Point2D,
    pub goal: Point2D,
    pub obstacles: Vec<&'a dyn Collision>,
    /// Greatest length of a steered edge.
    pub expand_dis: i64,
    /// Length of one step along a steered edge.
    pub path_resolution: i64,
    /// A draw of a number below 100 that exceeds this rate samples the goal.
    pub goal_sample_rate: u32,
    pub max_iter: u32,
    pub explore_area: RectangleBounds,
    pub node_list: Vec<RRTNode>,
    pub rng: StdRng,
}

/// After planning the first node is the root at the start, and the way up
/// from every node ends at the root and meets no node twice: it holds no
/// more points than the tree has nodes.
pub proof fn lemma_planned_tree(planner: RRT, before: RRT, result: Option<Path2D>, i: int)
    requires
        planner.planned(&before, result),
        0 <= i < planner.node_list@.len(),
    ensures
        planner.node_list@[0].id == 0,
        planner.node_list@[0].parent_id is None,
        planner.node_list@[0].point == planner.start,
        chain_points(
            planner.node_list@,
            planner.node_list@[i].point,
            planner.node_list@[i].parent_id,
        ).last() == planner.start,
        chain_points(
            planner.node_list@,
            planner.node_list@[i].point,
            planner.node_list@[i].parent_id,
        ).len() <= planner.node_list@.len(),
{
    lemma_chain_reaches_root(planner.node_list@, planner.start, i);
}

/// What rounds of growth made of a planner, they made of every planner
/// with the same configuration and the same tree.
pub proof fn lemma_grew_same_tree(a: RRT, b: RRT, first: RRT, rounds: nat)
    requires
        a.grew(&first, rounds),
        b.same_config(&a),
        b.node_list@ == a.node_list@,
    ensures
        b.grew(&first, rounds),
{
    if rounds > 0 {
        let (mid, target) = choose|mid: RRT, target: Point2D| #[trigger]
            mid.grow_gives(&a, target) && mid.can_sample(target) && mid.grew(
                &first,
                (rounds - 1) as nat,
            ) && (rounds > 1 ==> dist(mid.node_list@.last().point, mid.goal) > mid.expand_dis);
        assert(mid.grow_gives(&b, target));
    }
}

/// Whether a draw of `percent` samples the goal itself: it does when the
/// draw exceeds the rate, so a low rate samples the goal often.
pub fn draws_goal(percent: u32, goal_sample_rate: u32) -> (r: bool)
    ensures
        r == (percent > goal_sample_rate),
{
    percent > goal_sample_rate
}

/// The sample that the draws give: the goal where the draw `percent`
/// exceeds the rate, else the point `drawn` from the area.
pub open spec fn sample_of(percent: u32, goal_sample_rate: u32, goal: Point2D, drawn: Point2D)
    -> Point2D {
    if percent > goal_sample_rate {
        goal
    } else {
        drawn
    }
}

/// Some draw below 100 and some point of the area give the sample `pt`.
pub open spec fn is_sample(
    area: RectangleBounds,
    goal_sample_rate: u32,
    goal: Point2D,
    pt: Point2D,
) -> bool {
    exists|percent: u32, drawn: Point2D|
        percent < 100 && area.holds_sample(drawn) && pt == #[trigger] sample_of(
            percent,
            goal_sample_rate,
            goal,
            drawn,
        )
}

/// The node to grow the tree toward, from what was drawn: at the goal
/// where the draw `percent` exceeds the rate, else at the point `drawn`.
pub fn sample_node(percent: u32, goal_sample_rate: u32, goal: Point2D, drawn: Point2D) -> (r:
    RRTNode)
    ensures
        r.point == sample_of(percent, goal_sample_rate, goal, drawn),
        r.id == 0,
        r.parent_id is None,
        r.path@.len() == 0,
{
    if draws_goal(percent, goal_sample_rate) {
        RRTNode::new(goal)
    } else {
        RRTNode::new(drawn)
    }
}

/// What can be a sample: every point of the area, and the goal where the
/// rate is below 99, the largest draw.
pub proof fn lemma_samples(area: RectangleBounds, goal_sample_rate: u32, goal: Point2D, pt: Point2D)
    requires
        area.min_pt.0 < area.max_pt.0,
        area.min_pt.1 < area.max_pt.1,
    ensures
        is_sample(area, goal_sample_rate, goal, pt) <==> area.holds_sample(pt) || (goal_sample_rate
            < 99 && pt == goal),
{
    if area.holds_sample(pt) {
        assert(pt == sample_of(0, goal_sample_rate, goal, pt));
    } else if goal_sample_rate < 99 && pt == goal {
        assert(area.holds_sample(area.min_pt));
        assert(pt == sample_of(99, goal_sample_rate, goal, area.min_pt));
    }
}

impl<'a> RRT<'a> {
    /// The numbers of the configuration are in range: the points and the
    /// area, a step of positive length, and an area with room to draw from
    /// on both axes.
    pub open spec fn numbers_ok(&self) -> bool {
        &&& point_in_range(self.start)
        &&& point_in_range(self.goal)
        &&& self.explore_area.well_formed()
        &&& self.explore_area.min_pt.0 < self.explore_area.max_pt.0
        &&& self.explore_area.min_pt.1 < self.explore_area.max_pt.1
        &&& self.path_resolution > 0
    }

    /// The configuration is in range: its numbers and its obstacles.
    pub open spec fn config_ok(&self) -> bool {
        self.numbers_ok() && obstacles_well_formed(self.obstacles@)
    }

    /// Whether the numbers of the configuration are in range.
    pub fn numbers_in_range(&self) -> (r: bool)
        ensures
            r == self.numbers_ok(),
    {
        in_range(&self.start) && in_range(&self.goal) && in_range(&self.explore_area.min_pt)
            && in_range(&self.explore_area.max_pt) && self.explore_area.min_pt.0
            < self.explore_area.max_pt.0 && self.explore_area.min_pt.1
            < self.explore_area.max_pt.1 && self.path_resolution > 0
    }

    /// The configuration of `self` is that of `other`.
    pub open spec fn same_config(&self, other: &Self) -> bool {
        &&& self.start == other.start
        &&& self.goal == other.goal
        &&& self.obstacles@ == other.obstacles@
        &&& self.expand_dis == other.expand_dis
        &&& self.path_resolution == other.path_resolution
        &&& self.goal_sample_rate == other.goal_sample_rate
        &&& self.max_iter == other.max_iter
        &&& self.explore_area == other.explore_area
    }

    /// A node at `pt` whose parent is at `from` is taken into the tree: it
    /// passes the test of the area, lies in no obstacle, and the edge from
    /// its parent is barred by none.
    pub open spec fn accepts(&self, from: Point2D, pt: Point2D) -> bool {
        &&& self.explore_area.collides(pt)
        &&& !hits_any(self.obstacles@, pt)
        &&& !blocked_by_any(self.obstacles@, from, pt)
    }

    /// The point can come as a sample: it is the goal, or it can be drawn
    /// from the area.
    pub open spec fn can_sample(&self, target: Point2D) -> bool {
        target == self.goal || self.explore_area.holds_sample(target)
    }

    /// The planner `after` is what a round of growth toward `target` makes
    /// of this planner: an edge is steered toward `target` from the first of
    /// the nodes nearest to it, and where its end is accepted, the end joins
    /// the tree as a node with that edge.
    pub open spec fn grow_gives(&self, after: &Self, target: Point2D) -> bool {
        let before = self.node_list@;
        let near = first_nearest(node_points(before), target);
        let from = before[near].point;
        let edge = steer_path(from, target, self.expand_dis as int, self.path_resolution as int);
        &&& after.same_config(self)
        &&& if self.accepts(from, edge.last()) {
            &&& after.node_list@.len() == before.len() + 1
            &&& after.node_list@.drop_last() == before
            &&& after.node_list@.last().id == before.len()
            &&& after.node_list@.last().parent_id == Some(near as usize)
            &&& after.node_list@.last().path@ == edge
            &&& after.node_list@.last().point == edge.last()
        } else {
            after.node_list@ == before
        }
    }

    /// The planner `after` is what the goal check makes of this planner
    /// where the newest node is within reach of the goal: a last node joins
    /// the tree, at the end of the edge steered from the newest node onto
    /// the goal.
    pub open spec fn goal_joins(&self, after: &Self) -> bool {
        let before = self.node_list@;
        &&& after.same_config(self)
        &&& dist(before.last().point, self.goal) <= self.expand_dis
        &&& after.node_list@.len() == before.len() + 1
        &&& after.node_list@.drop_last() == before
        &&& after.node_list@.last().id == before.len()
        &&& after.node_list@.last().parent_id == Some((before.len() - 1) as usize)
        &&& after.node_list@.last().path@ == steer_path(
            before.last().point,
            self.goal,
            self.expand_dis as int,
            self.path_resolution as int,
        )
        &&& after.node_list@.last().point == self.goal
    }

    /// The tree holds the root alone, as planning begins.
    pub open spec fn holds_root_alone(&self) -> bool {
        &&& self.node_list@.len() == 1
        &&& self.node_list@[0].id == 0
        &&& self.node_list@[0].parent_id is None
        &&& self.node_list@[0].point == self.start
        &&& self.node_list@[0].path@.len() == 0
    }

    /// This planner is what `rounds` rounds of growth make of the planner
    /// `first` with its root alone, each toward a sample of its own, none
    /// but the last of them followed by a goal check that went through.
    pub open spec fn grew(&self, first: &Self, rounds: nat) -> bool
        decreases rounds,
    {
        if rounds == 0 {
            self.same_config(first) && self.holds_root_alone()
        } else {
            exists|mid: Self, target: Point2D| #[trigger]
                mid.grow_gives(self, target) && mid.can_sample(target) && mid.grew(
                    first,
                    (rounds - 1) as nat,
                ) && (rounds > 1 ==> dist(mid.node_list@.last().point, mid.goal) > mid.expand_dis)
        }
    }

    /// Every node but the root, up to the place `upto`, was accepted.
    pub open spec fn accepted_upto(&self, upto: int) -> bool {
        forall|i: int|
            1 <= i < upto && i < self.node_list@.len() ==> self.accepts(
                self.node_list@[parent_place((#[trigger] self.node_list@[i]).parent_id)].point,
                self.node_list@[i].point,
            )
    }

    /// A planner with an empty tree and a generator seeded by the
    /// operating system, or with zero where the system gives no entropy.
    pub fn new(
        start: Point2D,
        goal: Point2D,
        obstacles: Vec<&'a dyn Collision>,
        expand_dis: i64,
        path_resolution: i64,
        goal_sample_rate: u32,
        max_iter: u32,
        explore_area: RectangleBounds,
    ) -> (r: Self)
        ensures
            r.start == start,
            r.goal == goal,
            r.obstacles@ == obstacles@,
            r.expand_dis == expand_dis,
            r.path_resolution == path_resolution,
            r.goal_sample_rate == goal_sample_rate,
            r.max_iter == max_iter,
            r.explore_area == explore_area,
            r.node_list@.len() == 0,
    {
        Self {
            start,
            goal,
            obstacles,
            expand_dis,
            path_resolution,
            goal_sample_rate,
            max_iter,
            explore_area,
            node_list: Vec::new(),
            rng: fresh_rng(),
        }
    }

    /// A planner with an empty tree and a generator seeded with `seed`.
    pub fn with_seed(
        start: Point2D,
        goal: Point2D,
        obstacles: Vec<&'a dyn Collision>,
        expand_dis: i64,
        path_resolution: i64,
        goal_sample_rate: u32,
        max_iter: u32,
        explore_area: RectangleBounds,
        seed: u64,
    ) -> (r: Self)
        ensures
            r.start == start,
            r.goal == goal,
            r.obstacles@ == obstacles@,
            r.expand_dis == expand_dis,
            r.path_resolution == path_resolution,
            r.goal_sample_rate == goal_sample_rate,
            r.max_iter == max_iter,
            r.explore_area == explore_area,
            r.node_list@.len() == 0,
    {
        Self {
            start,
            goal,
            obstacles,
            expand_dis,
            path_resolution,
            goal_sample_rate,
            max_iter,
            explore_area,
            node_list: Vec::new(),
            rng: rng_from_seed(seed),
        }
    }

    /// The points on the way from `goal_node` up to the root of the tree,
    /// appended to `path`: the node's own point first, the root's last.
    pub fn get_path(&self, goal_node: &RRTNode, path: Vec<Point2D>) -> (r: Vec<Point2D>)
        requires
            tree_ok(self.node_list@, self.start),
            parent_place(goal_node.parent_id) < self.node_list@.len(),
        ensures
            r@ == path@ + chain_points(self.node_list@, goal_node.point, goal_node.parent_id),
        decreases parent_place(goal_node.parent_id) + 1,
    {
        let mut path = path;
        let ghost before = path@;
        path.push(goal_node.point);
        match goal_node.parent_id {
            None => {
                assert(path@ == before + seq![goal_node.point]);
                path
            },
            Some(idx) => {
                let parent = &self.node_list[idx];
                proof {
                    if idx > 0 {
                        assert(self.node_list@[idx as int].parent_id is Some);
                    }
                    assert(parent_place(parent.parent_id) < idx);
                }
                let r = self.get_path(parent, path);
                assert(r@ == before + (seq![goal_node.point] + chain_points(
                    self.node_list@,
                    parent.point,
                    parent.parent_id,
                )));
                r
            },
        }
    }

    /// A sample to grow the tree toward: the goal where a draw below 100
    /// exceeds the goal sample rate, else a point drawn from the area. The
    /// point is drawn only where it is the sample.
    pub fn get_random_node(&mut self, end: &RRTNode) -> (r: RRTNode)
        requires
            old(self).explore_area.min_pt.0 < old(self).explore_area.max_pt.0,
            old(self).explore_area.min_pt.1 < old(self).explore_area.max_pt.1,
        ensures
            final(self).same_config(old(self)),
            final(self).node_list == old(self).node_list,
            r.id == 0,
            r.parent_id is None,
            r.path@.len() == 0,
            is_sample(old(self).explore_area, old(self).goal_sample_rate, end.point, r.point),
            r.point == end.point || old(self).explore_area.holds_sample(r.point),
            old(self).goal_sample_rate >= 99 ==> old(self).explore_area.holds_sample(r.point),
    {
        let percent: u32 = random_in_range(&mut self.rng, 0, 100) as u32;
        let drawn: Point2D = if draws_goal(percent, self.goal_sample_rate) {
            end.point
        } else {
            let x: i64 = random_in_range(
                &mut self.rng,
                self.explore_area.min_pt.0,
                self.explore_area.max_pt.0,
            );
            let y: i64 = random_in_range(
                &mut self.rng,
                self.explore_area.min_pt.1,
                self.explore_area.max_pt.1,
            );
            (x, y)
        };
        let node = sample_node(percent, self.goal_sample_rate, end.point, drawn);
        proof {
            let corner = self.explore_area.min_pt;
            let witness = if percent > self.goal_sample_rate {
                corner
            } else {
                drawn
            };
            assert(self.explore_area.holds_sample(witness));
            assert(node.point == sample_of(percent, self.goal_sample_rate, end.point, witness));
        }
        node
    }

    /// The node at the end of an edge grown from `from_node` toward
    /// `to_node`, no longer than `expand_dist`, identified by `index`. The
    /// edge begins at `from_node`; where `to_node` is no farther than
    /// `expand_dist` it ends on `to_node` itself.
    pub fn steer(
        &self,
        from_node: &RRTNode,
        to_node: &RRTNode,
        expand_dist: i64,
        index: usize,
    ) -> (r: RRTNode)
        requires
            self.path_resolution > 0,
            point_in_range(from_node.point),
            point_in_range(to_node.point),
        ensures
            r.id == index,
            r.parent_id == Some(from_node.id),
            r.path@ == steer_path(
                from_node.point,
                to_node.point,
                expand_dist as int,
                self.path_resolution as int,
            ),
            r.point == r.path@.last(),
            r.path@[0] == from_node.point,
            dist(from_node.point, to_node.point) <= expand_dist ==> r.point == to_node.point,
            point_in_range(r.point),
    {
        let res: i64 = self.path_resolution;
        let from: Point2D = from_node.point;
        let to: Point2D = to_node.point;
        let d: i64 = from_node.distance_between(to_node) as i64;
        let dx: i64 = to.0 - from.0;
        let dy: i64 = to.1 - from.1;
        let extend_length: i64 = if expand_dist > d {
            d
        } else {
            expand_dist
        };
        let nexpand: i64 = if extend_length > 0 {
            extend_length / res
        } else {
            0
        };
        assert(0 <= nexpand && nexpand * res <= d) by (nonlinear_arith)
            requires
                res > 0,
                d >= 0,
                extend_length <= d,
                nexpand == (if extend_length > 0 {
                    extend_length / res
                } else {
                    0
                }),
        ;
        assert(nexpand <= d) by (nonlinear_arith)
            requires
                nexpand * res <= d,
                res > 0,
                0 <= nexpand,
        ;
        let ghost steps = seq![from] + Seq::new(
            nexpand as nat,
            |k: int| sample_point(from, to, (k + 1) * res, d as int),
        );
        let mut new_node = RRTNode {
            id: index,
            parent_id: Some(from_node.id),
            point: from,
            path: Vec::new(),
        };
        new_node.path.push(from);
        let mut k: i64 = 1;
        while k <= nexpand
            invariant
                1 <= k <= nexpand + 1,
                res > 0,
                0 <= d < DIST_LIMIT,
                nexpand * res <= d,
                nexpand <= d,
                point_in_range(from),
                point_in_range(to),
                dx == to.0 - from.0,
                dy == to.1 - from.1,
                new_node.id == index,
                new_node.parent_id == Some(from_node.id),
                new_node.path@.len() == k,
                new_node.path@[0] == from,
                forall|j: int|
                    1 <= j < k ==> #[trigger] new_node.path@[j] == sample_point(
                        from,
                        to,
                        j * res,
                        d as int,
                    ),
                new_node.point == new_node.path@.last(),
                point_in_range(new_node.point),
            decreases nexpand + 1 - k,
        {
            assert(0 < k * res <= d) by (nonlinear_arith)
                requires
                    1 <= k <= nexpand,
                    res > 0,
                    nexpand * res <= d,
            ;
            let along: i64 = k * res;
            assert(-9223372034707292160 <= along * dx <= 9223372034707292160) by (nonlinear_arith)
                requires
                    0 < along <= 4294967295,
                    -2147483648 <= dx <= 2147483648,
            ;
            assert(-9223372034707292160 <= along * dy <= 9223372034707292160) by (nonlinear_arith)
                requires
                    0 < along <= 4294967295,
                    -2147483648 <= dy <= 2147483648,
            ;
            proof {
                lemma_sample_between(from, to, along as int, d as int);
            }
            let pt: Point2D = (
                from.0 + div_round_to_zero(along * dx, d),
                from.1 + div_round_to_zero(along * dy, d),
            );
            new_node.path.push(pt);
            new_node.point = pt;
            k += 1;
        }
        assert(new_node.path@ == steps);
        if d - nexpand * res <= res {
            new_node.path.push(to);
            new_node.point = to;
        }
        proof {
            if d <= expand_dist {
                assert(d - nexpand * res <= res) by (nonlinear_arith)
                    requires
                        res > 0,
                        d >= 0,
                        nexpand == (if d > 0 {
                            d / res
                        } else {
                            0
                        }),
                ;
            }
        }
        new_node
    }

    /// Searches for a path; the same as [`Planner::plan`].
    pub fn planning(&mut self) -> (r: Option<Path2D>)
        requires
            old(self).ready(),
        ensures
            final(self).planned(old(self), r),
    {
        self.plan()
    }

    /// Smooths `path` by `max_iter` trials of shortcutting between two
    /// points drawn at random on it, each taken where none of the planner's
    /// obstacles bars the straight line between the two and the path does
    /// not grow longer by it. The path keeps its first and its last point.
    pub fn path_smoothing(&self, path: &Path2D, max_iter: u32) -> (r: Path2D)
        requires
            all_in_range(path.0@),
            obstacles_well_formed(self.obstacles@),
        ensures
            crate::path::smoothed(path.0@, self.obstacles@, r.0@, max_iter as nat),
            all_in_range(r.0@),
            max_iter == 0 ==> r.0@ == path.0@,
            r.0@.len() <= path.0@.len() + max_iter,
            path.0@.len() == 0 <==> r.0@.len() == 0,
            path.0@.len() > 0 ==> r.0@[0] == path.0@[0] && r.0@.last() == path.0@.last(),
            path.0@.len() < 4 ==> r.0@ == path.0@,
            crate::path::length_of(r.0@) <= crate::path::length_of(path.0@),
    {
        path.path_smoothing_obstacle(&self.obstacles, max_iter)
    }

    /// One round of growth: an edge is steered from the node nearest to
    /// `rnd_node` toward it, and its end becomes a node of the tree where the
    /// planner accepts it. Tells whether it did.
    pub fn grow(&mut self, rnd_node: &RRTNode) -> (accepted: bool)
        requires
            old(self).config_ok(),
            tree_ok(old(self).node_list@, old(self).start),
            point_in_range(rnd_node.point),
        ensures
            final(self).same_config(old(self)),
            tree_ok(final(self).node_list@, final(self).start),
            edges_steered(
                old(self).node_list@,
                old(self).expand_dis as int,
                old(self).path_resolution as int,
            ) ==> edges_steered(
                final(self).node_list@,
                old(self).expand_dis as int,
                old(self).path_resolution as int,
            ),
            grown_upto(
                old(self).node_list@,
                old(self).node_list@.len() as int,
                old(self).expand_dis as int,
                old(self).path_resolution as int,
            ) ==> grown_upto(
                final(self).node_list@,
                final(self).node_list@.len() as int,
                old(self).expand_dis as int,
                old(self).path_resolution as int,
            ),
            old(self).grow_gives(final(self), rnd_node.point),
            ({
                let near = first_nearest(node_points(old(self).node_list@), rnd_node.point);
                let from = old(self).node_list@[near].point;
                let edge = steer_path(
                    from,
                    rnd_node.point,
                    old(self).expand_dis as int,
                    old(self).path_resolution as int,
                );
                &&& 0 <= near < old(self).node_list@.len()
                &&& is_first_nearest(node_points(old(self).node_list@), rnd_node.point, near)
                &&& accepted == old(self).accepts(from, edge.last())
                &&& !accepted ==> final(self).node_list@ == old(self).node_list@
                &&& accepted ==> {
                    &&& final(self).node_list@.len() == old(self).node_list@.len() + 1
                    &&& final(self).node_list@.drop_last() == old(self).node_list@
                    &&& final(self).node_list@.last().parent_id == Some(near as usize)
                    &&& final(self).node_list@.last().path@ == edge
                    &&& final(self).node_list@.last().point == edge.last()
                }
            }),
    {
        let ghost pts = node_points(self.node_list@);
        let nearest_ind = rnd_node.get_nearest_node_index(&self.node_list).unwrap();
        proof {
            assert(pts == Seq::new(
                self.node_list.len() as nat,
                |j: int| self.node_list[j].spec_point(),
            ));
            lemma_first_nearest_is(pts, rnd_node.point, nearest_ind as int);
        }
        let push_idx = self.node_list.len();
        let new_node = self.steer(
            &self.node_list[nearest_ind],
            rnd_node,
            self.expand_dis,
            push_idx,
        );
        let parent_point = self.node_list[nearest_ind].point;
        let edge_collision_occured = self.is_collision_segment(&parent_point, &new_node.point);
        if self.explore_area.is_collision(&new_node.point) && !self.is_collision(&new_node.point)
            && !edge_collision_occured {
            let ghost before = self.node_list@;
            self.node_list.push(new_node);
            proof {
                assert(self.node_list@.drop_last() == before);
                assert forall|i: int| 1 <= i < self.node_list@.len() implies match (
                #[trigger] self.node_list@[i]).parent_id {
                    Some(p) => p < i && edge_links(
                        self.node_list@[p as int].point,
                        self.node_list@[i],
                    ),
                    None => false,
                } by {
                    if i < before.len() {
                        assert(self.node_list@[i] == before[i]);
                    }
                }
                lemma_steered_after_push(
                    before,
                    self.node_list@,
                    rnd_node.point,
                    self.expand_dis as int,
                    self.path_resolution as int,
                );
                if grown_upto(
                    before,
                    before.len() as int,
                    self.expand_dis as int,
                    self.path_resolution as int,
                ) {
                    assert(self.node_list@.subrange(0, before.len() as int) == before);
                    lemma_grown_after_push(
                        before,
                        self.node_list@,
                        rnd_node.point,
                        self.expand_dis as int,
                        self.path_resolution as int,
                    );
                }
            }
            true
        } else {
            false
        }
    }

    /// The goal check: where the newest node of the tree is within the
    /// expansion distance of the goal, a last edge is steered from it onto
    /// the goal and its end joins the tree, unexamined. Tells whether the
    /// goal was reached.
    pub fn connect_goal(&mut self) -> (reached: bool)
        requires
            old(self).config_ok(),
            tree_ok(old(self).node_list@, old(self).start),
        ensures
            final(self).same_config(old(self)),
            tree_ok(final(self).node_list@, final(self).start),
            edges_steered(
                old(self).node_list@,
                old(self).expand_dis as int,
                old(self).path_resolution as int,
            ) ==> edges_steered(
                final(self).node_list@,
                old(self).expand_dis as int,
                old(self).path_resolution as int,
            ),
            grown_upto(
                old(self).node_list@,
                old(self).node_list@.len() as int,
                old(self).expand_dis as int,
                old(self).path_resolution as int,
            ) ==> grown_upto(
                final(self).node_list@,
                old(self).node_list@.len() as int,
                old(self).expand_dis as int,
                old(self).path_resolution as int,
            ),
            reached == (dist(old(self).node_list@.last().point, old(self).goal) <= old(
                self,
            ).expand_dis),
            reached ==> old(self).goal_joins(final(self)),
            !reached ==> final(self).node_list@ == old(self).node_list@,
            reached ==> {
                &&& final(self).node_list@.len() == old(self).node_list@.len() + 1
                &&& final(self).node_list@.drop_last() == old(self).node_list@
                &&& final(self).node_list@.last().parent_id == Some(
                    (old(self).node_list@.len() - 1) as usize,
                )
                &&& final(self).node_list@.last().path@ == steer_path(
                    old(self).node_list@.last().point,
                    old(self).goal,
                    old(self).expand_dis as int,
                    old(self).path_resolution as int,
                )
                &&& final(self).node_list@.last().point == old(self).goal
            },
    {
        let last_ind = self.node_list.len() - 1;
        let end_node = RRTNode::new(self.goal);
        if self.expand_dis >= 0 && self.node_list[last_ind].distance_between_pos(self.goal)
            <= self.expand_dis as u64 {
            let push_idx = self.node_list.len();
            let final_node = self.steer(
                &self.node_list[last_ind],
                &end_node,
                self.expand_dis,
                push_idx,
            );
            let ghost before = self.node_list@;
            self.node_list.push(final_node);
            proof {
                assert(self.node_list@.drop_last() == before);
                assert forall|i: int| 1 <= i < self.node_list@.len() implies match (
                #[trigger] self.node_list@[i]).parent_id {
                    Some(p) => p < i && edge_links(
                        self.node_list@[p as int].point,
                        self.node_list@[i],
                    ),
                    None => false,
                } by {
                    if i < before.len() {
                        assert(self.node_list@[i] == before[i]);
                    }
                }
                lemma_steered_after_push(
                    before,
                    self.node_list@,
                    self.goal,
                    self.expand_dis as int,
                    self.path_resolution as int,
                );
                if grown_upto(
                    before,
                    before.len() as int,
                    self.expand_dis as int,
                    self.path_resolution as int,
                ) {
                    lemma_grown_after_push(
                        before,
                        self.node_list@,
                        self.goal,
                        self.expand_dis as int,
                        self.path_resolution as int,
                    );
                }
            }
            true
        } else {
            proof {
                lemma_dist_zero_iff_same(self.node_list@.last().point, self.goal);
            }
            false
        }
    }
}

impl<'a> Planner<'a> for RRT<'a> {
    open spec fn spec_obstacles(&self) -> Seq<&dyn Collision> {
        self.obstacles@
    }

    /// The configuration is in range and the tree is empty.
    open spec fn ready(&self) -> bool {
        self.config_ok() && self.node_list@.len() == 0
    }

    /// The tree is rooted at the start and every node in it was accepted,
    /// but for the node that a last edge put on the goal. A path is
    /// returned exactly when the goal was reached in that way: it leads from
    /// the goal up the tree to the start. Without one, every round was used
    /// and the newest node is still out of reach of the goal.
    open spec fn planned(&self, before: &Self, result: Option<Path2D>) -> bool {
        let nodes = self.node_list@;
        &&& self.same_config(before)
        &&& tree_ok(nodes, self.start)
        &&& edges_steered(nodes, self.expand_dis as int, self.path_resolution as int)
        &&& nodes.len() <= self.max_iter + 2
        &&& match result {
            Some(path) => {
                &&& exists|grown: Self, rounds: nat| #[trigger]
                    grown.grew(before, rounds) && 1 <= rounds <= self.max_iter && grown.goal_joins(
                        self,
                    )
                &&& nodes.len() >= 2
                &&& nodes.last().point == self.goal
                &&& nodes.last().parent_id == Some((nodes.len() - 2) as usize)
                &&& dist(nodes[nodes.len() - 2].point, self.goal) <= self.expand_dis
                &&& self.accepted_upto(nodes.len() - 1)
                &&& grown_upto(
                    nodes,
                    nodes.len() - 1,
                    self.expand_dis as int,
                    self.path_resolution as int,
                )
                &&& path.0@ == chain_points(nodes, nodes.last().point, nodes.last().parent_id)
                &&& path.0@[0] == self.goal
                &&& path.0@.last() == self.start
                &&& path.0@.len() <= nodes.len()
            },
            None => {
                &&& self.grew(before, self.max_iter as nat)
                &&& self.accepted_upto(nodes.len() as int)
                &&& grown_upto(
                    nodes,
                    nodes.len() as int,
                    self.expand_dis as int,
                    self.path_resolution as int,
                )
                &&& self.max_iter > 0 ==> dist(nodes.last().point, self.goal) > self.expand_dis
            },
        }
    }

    fn obstacles(&self) -> (r: &Vec<&dyn Collision>) {
        &self.obstacles
    }

    fn plan(&mut self) -> (r: Option<Path2D>) {
        let start_node = RRTNode::new(self.start);
        let end_node = RRTNode::new(self.goal);
        self.node_list.push(start_node);
        let mut achieve_goal = false;
        let mut round: u32 = 0;
        while round < self.max_iter
            invariant_except_break
                !achieve_goal,
                round > 0 ==> dist(self.node_list@.last().point, self.goal) > self.expand_dis,
                self.grew(old(self), round as nat),
                self.accepted_upto(self.node_list@.len() as int),
                grown_upto(
                    self.node_list@,
                    self.node_list@.len() as int,
                    self.expand_dis as int,
                    self.path_resolution as int,
                ),
                self.node_list@.len() <= round + 1,
            invariant
                round <= self.max_iter,
                self.config_ok(),
                self.same_config(old(self)),
                tree_ok(self.node_list@, self.start),
                edges_steered(
                    self.node_list@,
                    self.expand_dis as int,
                    self.path_resolution as int,
                ),
                end_node.point == self.goal,
            ensures
                self.node_list@.len() <= self.max_iter + 2,
                !achieve_goal ==> {
                    &&& self.grew(old(self), self.max_iter as nat)
                    &&& self.accepted_upto(self.node_list@.len() as int)
                    &&& grown_upto(
                        self.node_list@,
                        self.node_list@.len() as int,
                        self.expand_dis as int,
                        self.path_resolution as int,
                    )
                    &&& self.max_iter > 0 ==> dist(self.node_list@.last().point, self.goal)
                        > self.expand_dis
                },
                achieve_goal ==> {
                    &&& exists|grown: Self, rounds: nat| #[trigger]
                        grown.grew(old(self), rounds) && 1 <= rounds <= self.max_iter
                            && grown.goal_joins(self)
                    &&& self.node_list@.len() >= 2
                    &&& self.node_list@.last().point == self.goal
                    &&& self.node_list@.last().parent_id == Some(
                        (self.node_list@.len() - 2) as usize,
                    )
                    &&& dist(self.node_list@[self.node_list@.len() - 2].point, self.goal)
                        <= self.expand_dis
                    &&& self.accepted_upto(self.node_list@.len() - 1)
                    &&& grown_upto(
                        self.node_list@,
                        self.node_list@.len() - 1,
                        self.expand_dis as int,
                        self.path_resolution as int,
                    )
                },
            decreases self.max_iter - round,
        {
            let ghost mid = *self;
            let rnd_node = self.get_random_node(&end_node);
            let ghost before = self.node_list@;
            let accepted = self.grow(&rnd_node);
            let ghost after_growth = *self;
            proof {
                assert(mid.grow_gives(&after_growth, rnd_node.point));
                assert(mid.can_sample(rnd_node.point));
                assert(after_growth.grew(old(self), (round + 1) as nat));
            }
            proof {
                assert forall|i: int| 1 <= i < self.node_list@.len() implies self.accepts(
                    self.node_list@[parent_place(
                        (#[trigger] self.node_list@[i]).parent_id,
                    )].point,
                    self.node_list@[i].point,
                ) by {
                    if i < before.len() {
                        assert(self.node_list@[i] == before[i]);
                        assert(before[i].parent_id is Some);
                        let p = parent_place(before[i].parent_id);
                        assert(self.node_list@[p] == before[p]);
                    }
                }
            }
            let ghost grown = self.node_list@;
            round += 1;
            if self.connect_goal() {
                achieve_goal = true;
                proof {
                    assert forall|i: int|
                        1 <= i < self.node_list@.len() - 1 implies self.accepts(
                        self.node_list@[parent_place(
                            (#[trigger] self.node_list@[i]).parent_id,
                        )].point,
                        self.node_list@[i].point,
                    ) by {
                        assert(self.node_list@[i] == grown[i]);
                        assert(grown[i].parent_id is Some);
                        let p = parent_place(grown[i].parent_id);
                        assert(self.node_list@[p] == grown[p]);
                    }
                    assert(self.node_list@[self.node_list@.len() - 2] == grown.last());
                    assert(after_growth.grew(old(self), round as nat) && after_growth.goal_joins(
                        self,
                    ));
                }
                break ;
            }
            proof {
                lemma_grew_same_tree(after_growth, *self, *old(self), round as nat);
            }
        }
        if achieve_goal {
            let last = &self.node_list[self.node_list.len() - 1];
            proof {
                lemma_chain_reaches_root(
                    self.node_list@,
                    self.start,
                    self.node_list@.len() - 1,
                );
            }
            Some(Path2D(self.get_path(last, Vec::new())))
        } else {
            None
        }
    }
}

} // verus!
