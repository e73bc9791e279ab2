//! Keep-out and keep-in regions of the plane, and the tests a planner asks
//! of them.

use crate::math::{
    cross, cross_of, div_round_to_zero, div_toward_zero, in_range, lemma_div_toward_zero_bounds,
    line_seg_intersects, point_in_range, segments_meet, sq_dist, squared_distance, Point2D,
    COORD_LIMIT,
};
use vstd::prelude::*;

verus! {

/// What a planner asks of an obstacle: whether a point lies in it, and
/// whether the straight edge between two points is barred by it.
pub trait Collision {
    /// The shape's own parameters are in range.
    spec fn well_formed(&self) -> bool;

    /// The point test, as a predicate.
    spec fn collides(&self, pt: Point2D) -> bool;

    /// The edge test, as a predicate. A shape without an edge test never
    /// bars an edge.
    spec fn blocks(&self, start: Point2D, end: Point2D) -> bool;

    /// Whether the point lies in the obstacle.
    fn is_collision(&self, pt: &Point2D) -> (r: bool)
        requires
            self.well_formed(),
            point_in_range(*pt),
        ensures
            r == self.collides(*pt),
    ;

    /// Whether the straight edge from `start` to `end` is barred by the
    /// obstacle.
    fn is_collision_segment(&self, start: &Point2D, end: &Point2D) -> (r: bool)
        requires
            self.well_formed(),
            point_in_range(*start),
            point_in_range(*end),
        ensures
            r == self.blocks(*start, *end),
    ;
}

/// An axis-aligned rectangle given by two opposite corners.
#[derive(Debug, Clone, Copy)]
pub struct RectangleBounds {
    pub min_pt: Point2D,
    pub max_pt: Point2D,
}

/// A circle given by its centre and radius.
#[derive(Debug, Clone, Copy)]
pub struct CircleBounds {
    pub center_pt: Point2D,
    pub radius: i64,
}

impl RectangleBounds {
    /// Whether both corners are in range.
    pub fn in_range(&self) -> (r: bool)
        ensures
            r == self.well_formed(),
    {
        in_range(&self.min_pt) && in_range(&self.max_pt)
    }

    /// The point can be drawn as a sample from the rectangle: on either
    /// axis it lies at the lower corner or beyond, and before the upper
    /// corner.
    pub open spec fn holds_sample(&self, pt: Point2D) -> bool {
        &&& self.min_pt.0 <= pt.0 < self.max_pt.0
        &&& self.min_pt.1 <= pt.1 < self.max_pt.1
    }
}

impl Collision for RectangleBounds {
    open spec fn well_formed(&self) -> bool {
        point_in_range(self.min_pt) && point_in_range(self.max_pt)
    }

    /// The point lies beyond the lower corner or before the upper corner on
    /// either axis: the four comparisons are joined by "or", so only a
    /// rectangle whose lower corner is not below its upper one excludes any
    /// point.
    open spec fn collides(&self, pt: Point2D) -> bool {
        pt.0 > self.min_pt.0 || pt.0 < self.max_pt.0 || pt.1 > self.min_pt.1 || pt.1
            < self.max_pt.1
    }

    /// The edge meets the lower, the left or the right side of the
    /// rectangle. The upper side is not looked at.
    open spec fn blocks(&self, start: Point2D, end: Point2D) -> bool {
        let upper_left = (self.min_pt.0, self.max_pt.1);
        let lower_right = (self.max_pt.0, self.min_pt.1);
        segments_meet(start, end, self.min_pt, lower_right) || segments_meet(
            start,
            end,
            self.min_pt,
            upper_left,
        ) || segments_meet(start, end, self.max_pt, lower_right)
    }

    fn is_collision(&self, pt: &Point2D) -> (r: bool) {
        pt.0 > self.min_pt.0 || pt.0 < self.max_pt.0 || pt.1 > self.min_pt.1 || pt.1
            < self.max_pt.1
    }

    fn is_collision_segment(&self, start: &Point2D, end: &Point2D) -> (r: bool) {
        let upper_left = (self.min_pt.0, self.max_pt.1);
        let lower_right = (self.max_pt.0, self.min_pt.1);
        line_seg_intersects(start, end, &self.min_pt, &lower_right) || line_seg_intersects(
            start,
            end,
            &self.min_pt,
            &upper_left,
        ) || line_seg_intersects(start, end, &self.max_pt, &lower_right) || line_seg_intersects(
            start,
            end,
            &self.max_pt,
            &lower_right,
        )
    }
}

impl CircleBounds {
    /// Whether the centre and the radius are in range.
    pub fn in_range(&self) -> (r: bool)
        ensures
            r == self.well_formed(),
    {
        in_range(&self.center_pt) && -2 * COORD_LIMIT <= self.radius && self.radius <= 2
            * COORD_LIMIT
    }
}

/// The numerator of the distance from `center` to the line through `start`
/// and `end`, in the line's implicit form `a x + b y + c`.
pub open spec fn line_offset(center: Point2D, start: Point2D, end: Point2D) -> int {
    let a = end.1 - start.1;
    let b = -(end.0 - start.0);
    let c = end.1 * (end.0 - start.0) - end.0 * (end.1 - start.1);
    a * center.0 + b * center.1 + c
}

impl Collision for CircleBounds {
    open spec fn well_formed(&self) -> bool {
        point_in_range(self.center_pt) && -2 * COORD_LIMIT <= self.radius <= 2 * COORD_LIMIT
    }

    /// The squared distance to the centre is at most the squared radius:
    /// the rim belongs to the circle.
    open spec fn collides(&self, pt: Point2D) -> bool {
        sq_dist(pt, self.center_pt) <= self.radius * self.radius
    }

    /// The infinite line through the two points passes within the radius
    /// of the centre. The edge's finite extent is not considered, and two
    /// equal points span no line and bar nothing.
    open spec fn blocks(&self, start: Point2D, end: Point2D) -> bool {
        let n = line_offset(self.center_pt, start, end);
        start != end && self.radius >= 0 && n * n <= self.radius * self.radius * sq_dist(
            end,
            start,
        )
    }

    fn is_collision(&self, pt: &Point2D) -> (r: bool) {
        assert(0 <= self.radius * self.radius <= 4611686018427387904) by (nonlinear_arith)
            requires
                -2147483648 <= self.radius <= 2147483648,
        ;
        let rr: u64 = (self.radius * self.radius) as u64;
        squared_distance(pt, &self.center_pt) <= rr
    }

    fn is_collision_segment(&self, start: &Point2D, end: &Point2D) -> (r: bool) {
        if start.0 == end.0 && start.1 == end.1 {
            return false;
        }
        if self.radius < 0 {
            return false;
        }
        let a: i64 = end.1 - start.1;
        let b: i64 = -(end.0 - start.0);
        let ex: i64 = end.0 - start.0;
        let cx: i64 = self.center_pt.0;
        let cy: i64 = self.center_pt.1;
        let e0: i64 = end.0;
        let e1: i64 = end.1;
        let rad: i64 = self.radius;
        assert(-2305843009213693952 <= a * cx <= 2305843009213693952) by (nonlinear_arith)
            requires
                -2147483648 <= a <= 2147483648,
                -1073741824 <= cx <= 1073741824,
        ;
        assert(-2305843009213693952 <= b * cy <= 2305843009213693952) by (nonlinear_arith)
            requires
                -2147483648 <= b <= 2147483648,
                -1073741824 <= cy <= 1073741824,
        ;
        assert(-2305843009213693952 <= e1 * ex <= 2305843009213693952) by (nonlinear_arith)
            requires
                -2147483648 <= ex <= 2147483648,
                -1073741824 <= e1 <= 1073741824,
        ;
        assert(-2305843009213693952 <= e0 * a <= 2305843009213693952) by (nonlinear_arith)
            requires
                -2147483648 <= a <= 2147483648,
                -1073741824 <= e0 <= 1073741824,
        ;
        let c: i64 = e1 * ex - e0 * a;
        let n: i128 = (a * cx) as i128 + (b * cy) as i128 + c as i128;
        assert(n == line_offset(self.center_pt, *start, *end));
        assert(0 <= n * n <= 85070591730234615865843651857942052864) by (nonlinear_arith)
            requires
                -9223372036854775808 <= n <= 9223372036854775808,
        ;
        assert(0 <= rad * rad <= 4611686018427387904) by (nonlinear_arith)
            requires
                0 <= rad <= 2147483648,
        ;
        let rr: i128 = (rad * rad) as i128;
        let len2: u64 = squared_distance(end, start);
        assert(len2 <= 9223372036854775808) by (nonlinear_arith)
            requires
                len2 == (end.0 - start.0) * (end.0 - start.0) + (end.1 - start.1) * (end.1
                    - start.1),
                -2147483648 <= end.0 - start.0 <= 2147483648,
                -2147483648 <= end.1 - start.1 <= 2147483648,
        ;
        assert(0 <= rr * len2 <= 42535295865117307932921825928971026432) by (nonlinear_arith)
            requires
                0 <= rr <= 4611686018427387904,
                0 <= len2 <= 9223372036854775808,
        ;
        n * n <= rr * (len2 as i128)
    }
}

/// A point whose squared distance to the centre equals the squared radius
/// is in the circle, and a point farther away is not.
pub proof fn lemma_circle_rim_inclusive(circle: CircleBounds, pt: Point2D)
    ensures
        sq_dist(pt, circle.center_pt) == circle.radius * circle.radius ==> circle.collides(pt),
        sq_dist(pt, circle.center_pt) > circle.radius * circle.radius ==> !circle.collides(pt),
{
}

/// The point `p` lies to the left of the directed line from `a` to `b`, or
/// on it.
pub open spec fn left_or_on(a: Point2D, b: Point2D, p: Point2D) -> bool {
    cross(b.0 - a.0, b.1 - a.1, p.0 - a.0, p.1 - a.1) >= 0
}

/// Every point of `pts` lies to the left of the directed line from `a` to
/// `b`, or on it.
pub open spec fn all_left_or_on(pts: Seq<Point2D>, a: Point2D, b: Point2D) -> bool {
    forall|k: int| 0 <= k < pts.len() ==> left_or_on(a, b, #[trigger] pts[k])
}

/// The directed line through the two distinct points `a` and `b` of `pts`
/// has all of `pts` on its left side: it carries a side of their hull.
pub open spec fn supports(pts: Seq<Point2D>, a: Point2D, b: Point2D) -> bool {
    pts.contains(a) && pts.contains(b) && a != b && all_left_or_on(pts, a, b)
}

/// The point `p` lies in the convex hull of `pts`: on the inner side of
/// every line that carries a side of the hull.
pub open spec fn in_hull(pts: Seq<Point2D>, p: Point2D) -> bool {
    forall|a: Point2D, b: Point2D| #[trigger] supports(pts, a, b) ==> left_or_on(a, b, p)
}

/// Some three points of `pts` are not on one line.
pub open spec fn spans_plane(pts: Seq<Point2D>) -> bool {
    exists|i: int, j: int, k: int|
        0 <= i < pts.len() && 0 <= j < pts.len() && 0 <= k < pts.len() && #[trigger] cross(
            pts[j].0 - pts[i].0,
            pts[j].1 - pts[i].1,
            pts[k].0 - pts[i].0,
            pts[k].1 - pts[i].1,
        ) != 0
}

/// Every point of the list is in range.
pub open spec fn all_in_range(pts: Seq<Point2D>) -> bool {
    forall|k: int| 0 <= k < pts.len() ==> point_in_range(#[trigger] pts[k])
}

/// Whether every point of the list is in range.
pub fn points_in_range(points: &[Point2D]) -> (r: bool)
    ensures
        r == all_in_range(points@),
{
    let mut k: usize = 0;
    while k < points.len()
        invariant
            k <= points.len(),
            forall|m: int| 0 <= m < k ==> point_in_range(#[trigger] points@[m]),
        decreases points.len() - k,
    {
        if !in_range(&points[k]) {
            return false;
        }
        k += 1;
    }
    true
}

/// The `idx`-th of `count` evenly spaced sample points on the way from
/// `start` toward `end`, each coordinate rounded toward `start`.
pub open spec fn sample_point(start: Point2D, end: Point2D, idx: int, count: int) -> Point2D {
    (
        (start.0 + div_toward_zero(idx * (end.0 - start.0), count)) as i64,
        (start.1 + div_toward_zero(idx * (end.1 - start.1), count)) as i64,
    )
}

/// Number of points tested along an edge.
pub const SEGMENT_SAMPLES: i64 = 100;

/// A convex polygon: the convex hull of a set of points that do not all lie
/// on one line.
#[derive(Debug)]
pub struct ConvexPolygonBounds {
    pub points: Vec<Point2D>,
    /// The directed lines that carry the hull's sides, found once when the
    /// polygon is built.
    pub sides: Vec<(Point2D, Point2D)>,
}

/// Whether `p` lies to the left of the directed line from `a` to `b`, or
/// on it.
fn is_left_or_on(a: &Point2D, b: &Point2D, p: &Point2D) -> (r: bool)
    requires
        point_in_range(*a),
        point_in_range(*b),
        point_in_range(*p),
    ensures
        r == left_or_on(*a, *b, *p),
{
    cross_of(b.0 - a.0, b.1 - a.1, p.0 - a.0, p.1 - a.1) >= 0
}

/// Whether every point of the list lies to the left of the directed line
/// from `a` to `b`, or on it.
fn is_all_left_or_on(points: &[Point2D], a: &Point2D, b: &Point2D) -> (r: bool)
    requires
        all_in_range(points@),
        point_in_range(*a),
        point_in_range(*b),
    ensures
        r == all_left_or_on(points@, *a, *b),
{
    let mut k: usize = 0;
    while k < points.len()
        invariant
            k <= points.len(),
            all_in_range(points@),
            point_in_range(*a),
            point_in_range(*b),
            forall|m: int| 0 <= m < k ==> left_or_on(*a, *b, #[trigger] points@[m]),
        decreases points.len() - k,
    {
        if !is_left_or_on(a, b, &points[k]) {
            return false;
        }
        k += 1;
    }
    true
}

/// Whether some three points of the list are not on one line.
fn is_spanning(points: &[Point2D]) -> (r: bool)
    requires
        all_in_range(points@),
    ensures
        r == spans_plane(points@),
{
    let n = points.len();
    let mut i: usize = 0;
    while i < n
        invariant
            n == points.len(),
            i <= n,
            all_in_range(points@),
            forall|i2: int, j: int, k: int|
                0 <= i2 < i && 0 <= j < n && 0 <= k < n ==> #[trigger] cross(
                    points@[j].0 - points@[i2].0,
                    points@[j].1 - points@[i2].1,
                    points@[k].0 - points@[i2].0,
                    points@[k].1 - points@[i2].1,
                ) == 0,
        decreases n - i,
    {
        let mut j: usize = 0;
        while j < n
            invariant
                n == points.len(),
                i < n,
                j <= n,
                all_in_range(points@),
                forall|j2: int, k: int|
                    0 <= j2 < j && 0 <= k < n ==> #[trigger] cross(
                        points@[j2].0 - points@[i as int].0,
                        points@[j2].1 - points@[i as int].1,
                        points@[k].0 - points@[i as int].0,
                        points@[k].1 - points@[i as int].1,
                    ) == 0,
            decreases n - j,
        {
            let mut k: usize = 0;
            while k < n
                invariant
                    n == points.len(),
                    i < n,
                    j < n,
                    k <= n,
                    all_in_range(points@),
                    forall|k2: int|
                        0 <= k2 < k ==> #[trigger] cross(
                            points@[j as int].0 - points@[i as int].0,
                            points@[j as int].1 - points@[i as int].1,
                            points@[k2].0 - points@[i as int].0,
                            points@[k2].1 - points@[i as int].1,
                        ) == 0,
                decreases n - k,
            {
                let a = &points[i];
                let b = &points[j];
                let c = &points[k];
                if cross_of(b.0 - a.0, b.1 - a.1, c.0 - a.0, c.1 - a.1) != 0 {
                    return true;
                }
                k += 1;
            }
            j += 1;
        }
        i += 1;
    }
    false
}

impl ConvexPolygonBounds {
    /// The stored sides are exactly the supporting lines of the points.
    pub open spec fn sides_complete(&self) -> bool {
        &&& forall|m: int|
            0 <= m < self.sides@.len() ==> supports(
                self.points@,
                (#[trigger] self.sides@[m]).0,
                self.sides@[m].1,
            )
        &&& forall|a: Point2D, b: Point2D| #[trigger]
            supports(self.points@, a, b) ==> self.sides@.contains((a, b))
    }

    /// The convex hull of `points`. There is none where all the points lie
    /// on one line, which includes every set of fewer than three points.
    pub fn new_from_points(points: &[Point2D]) -> (r: Option<Self>)
        requires
            all_in_range(points@),
        ensures
            r is Some <==> spans_plane(points@),
            r matches Some(poly) ==> poly.well_formed() && poly.points@ == points@,
    {
        if !is_spanning(points) {
            return None;
        }
        let n = points.len();
        let mut kept: Vec<Point2D> = Vec::new();
        let mut c: usize = 0;
        while c < n
            invariant
                n == points.len(),
                c <= n,
                kept@ == points@.subrange(0, c as int),
            decreases n - c,
        {
            kept.push(points[c]);
            c += 1;
            assert(kept@ == points@.subrange(0, c as int));
        }
        assert(kept@ == points@);
        let mut sides: Vec<(Point2D, Point2D)> = Vec::new();
        let mut i: usize = 0;
        while i < n
            invariant
                n == points.len(),
                i <= n,
                all_in_range(points@),
                forall|m: int|
                    0 <= m < sides@.len() ==> supports(
                        points@,
                        (#[trigger] sides@[m]).0,
                        sides@[m].1,
                    ),
                forall|i2: int, j: int|
                    0 <= i2 < i && 0 <= j < n && supports(points@, points@[i2], points@[j])
                        ==> sides@.contains((#[trigger] points@[i2], #[trigger] points@[j])),
            decreases n - i,
        {
            let mut j: usize = 0;
            while j < n
                invariant
                    n == points.len(),
                    i < n,
                    j <= n,
                    all_in_range(points@),
                    forall|m: int|
                        0 <= m < sides@.len() ==> supports(
                            points@,
                            (#[trigger] sides@[m]).0,
                            sides@[m].1,
                        ),
                    forall|i2: int, j2: int|
                        0 <= i2 < i && 0 <= j2 < n && supports(points@, points@[i2], points@[j2])
                            ==> sides@.contains((#[trigger] points@[i2], #[trigger] points@[j2])),
                    forall|j2: int|
                        0 <= j2 < j && supports(points@, points@[i as int], points@[j2])
                            ==> sides@.contains((points@[i as int], #[trigger] points@[j2])),
                decreases n - j,
            {
                let a = points[i];
                let b = points[j];
                let ghost before = sides@;
                if (a.0 != b.0 || a.1 != b.1) && is_all_left_or_on(points, &a, &b) {
                    sides.push((a, b));
                    proof {
                        assert(sides@[before.len() as int] == (a, b));
                        assert(points@.contains(a));
                        assert(points@.contains(b));
                    }
                }
                proof {
                    assert forall|p: (Point2D, Point2D)| before.contains(p) implies sides@.contains(
                        p,
                    ) by {
                        let m = choose|m: int| 0 <= m < before.len() && before[m] == p;
                        assert(sides@[m] == p);
                    }
                }
                j += 1;
            }
            i += 1;
        }
        let poly = ConvexPolygonBounds { points: kept, sides };
        proof {
            assert forall|a: Point2D, b: Point2D| #[trigger]
                supports(poly.points@, a, b) implies poly.sides@.contains((a, b)) by {
                let i2 = choose|i2: int| 0 <= i2 < points@.len() && points@[i2] == a;
                let j2 = choose|j2: int| 0 <= j2 < points@.len() && points@[j2] == b;
                assert(supports(points@, points@[i2], points@[j2]));
            }
        }
        Some(poly)
    }

    /// The convex hull of `points`; see [`ConvexPolygonBounds::new_from_points`].
    pub fn new(points: &Vec<Point2D>) -> (r: Option<Self>)
        requires
            all_in_range(points@),
        ensures
            r is Some <==> spans_plane(points@),
            r matches Some(poly) ==> poly.well_formed() && poly.points@ == points@,
    {
        Self::new_from_points(points.as_slice())
    }
}

impl Collision for ConvexPolygonBounds {
    open spec fn well_formed(&self) -> bool {
        &&& all_in_range(self.points@)
        &&& spans_plane(self.points@)
        &&& self.sides_complete()
    }

    /// The point lies in the convex hull of the polygon's points, sides
    /// and corners included.
    open spec fn collides(&self, pt: Point2D) -> bool {
        in_hull(self.points@, pt)
    }

    /// One of the sample points along the edge lies in the polygon. The
    /// end point itself is not among the samples, and a polygon that is
    /// thinner than the spacing of the samples can be stepped over.
    open spec fn blocks(&self, start: Point2D, end: Point2D) -> bool {
        exists|idx: int|
            0 <= idx < SEGMENT_SAMPLES && in_hull(
                self.points@,
                #[trigger] sample_point(start, end, idx, SEGMENT_SAMPLES as int),
            )
    }

    fn is_collision(&self, pt: &Point2D) -> (r: bool) {
        let mut m: usize = 0;
        while m < self.sides.len()
            invariant
                m <= self.sides.len(),
                self.well_formed(),
                point_in_range(*pt),
                forall|k: int|
                    0 <= k < m ==> left_or_on(
                        (#[trigger] self.sides@[k]).0,
                        self.sides@[k].1,
                        *pt,
                    ),
            decreases self.sides.len() - m,
        {
            let side = &self.sides[m];
            proof {
                assert(supports(self.points@, self.sides@[m as int].0, self.sides@[m as int].1));
                let i2 = choose|i2: int| 0 <= i2 < self.points@.len() && self.points@[i2] == side.0;
                let j2 = choose|j2: int| 0 <= j2 < self.points@.len() && self.points@[j2] == side.1;
                assert(point_in_range(self.points@[i2]));
                assert(point_in_range(self.points@[j2]));
            }
            if !is_left_or_on(&side.0, &side.1, pt) {
                return false;
            }
            m += 1;
        }
        proof {
            assert forall|a: Point2D, b: Point2D| #[trigger]
                supports(self.points@, a, b) implies left_or_on(a, b, *pt) by {
                assert(self.sides@.contains((a, b)));
                let k = choose|k: int| 0 <= k < self.sides@.len() && self.sides@[k] == (a, b);
                assert(left_or_on(self.sides@[k].0, self.sides@[k].1, *pt));
            }
        }
        true
    }

    fn is_collision_segment(&self, start: &Point2D, end: &Point2D) -> (r: bool) {
        let dx: i64 = end.0 - start.0;
        let dy: i64 = end.1 - start.1;
        let mut idx: i64 = 0;
        while idx < SEGMENT_SAMPLES
            invariant
                0 <= idx <= SEGMENT_SAMPLES,
                self.well_formed(),
                point_in_range(*start),
                point_in_range(*end),
                dx == end.0 - start.0,
                dy == end.1 - start.1,
                forall|j: int|
                    0 <= j < idx ==> !in_hull(
                        self.points@,
                        #[trigger] sample_point(*start, *end, j, SEGMENT_SAMPLES as int),
                    ),
            decreases SEGMENT_SAMPLES - idx,
        {
            proof {
                lemma_sample_between(*start, *end, idx as int, SEGMENT_SAMPLES as int);
            }
            assert(-214748364800 <= idx * dx <= 214748364800) by (nonlinear_arith)
                requires
                    0 <= idx <= 100,
                    -2147483648 <= dx <= 2147483648,
            ;
            assert(-214748364800 <= idx * dy <= 214748364800) by (nonlinear_arith)
                requires
                    0 <= idx <= 100,
                    -2147483648 <= dy <= 2147483648,
            ;
            let pt: Point2D = (
                start.0 + div_round_to_zero(idx * dx, SEGMENT_SAMPLES),
                start.1 + div_round_to_zero(idx * dy, SEGMENT_SAMPLES),
            );
            assert(pt == sample_point(*start, *end, idx as int, SEGMENT_SAMPLES as int));
            if self.is_collision(&pt) {
                return true;
            }
            idx += 1;
        }
        false
    }
}

/// A sample point lies between the two ends of its edge on either axis.
pub proof fn lemma_sample_between(start: Point2D, end: Point2D, idx: int, count: int)
    requires
        0 <= idx <= count,
        count > 0,
        point_in_range(start),
        point_in_range(end),
    ensures
        point_in_range(sample_point(start, end, idx, count)),
        sample_point(start, end, idx, count).0 == start.0 + div_toward_zero(
            idx * (end.0 - start.0),
            count,
        ),
        sample_point(start, end, idx, count).1 == start.1 + div_toward_zero(
            idx * (end.1 - start.1),
            count,
        ),
{
    lemma_scaled_step_between(end.0 - start.0, idx, count);
    lemma_scaled_step_between(end.1 - start.1, idx, count);
}

/// A fraction `idx / count` of the displacement `d`, rounded toward zero,
/// lies between zero and `d`.
pub proof fn lemma_scaled_step_between(d: int, idx: int, count: int)
    requires
        0 <= idx <= count,
        count > 0,
    ensures
        d >= 0 ==> 0 <= div_toward_zero(idx * d, count) <= d,
        d <= 0 ==> d <= div_toward_zero(idx * d, count) <= 0,
{
    lemma_div_toward_zero_bounds(idx * d, count);
    let q = div_toward_zero(idx * d, count);
    if d >= 0 {
        assert(idx * d >= 0) by (nonlinear_arith)
            requires
                idx >= 0,
                d >= 0,
        ;
        assert(q <= d) by (nonlinear_arith)
            requires
                q * count <= idx * d,
                0 <= idx <= count,
                count > 0,
                d >= 0,
                q >= 0,
        ;
    } else {
        assert(idx * d <= 0) by (nonlinear_arith)
            requires
                idx >= 0,
                d <= 0,
        ;
        assert(q >= d) by (nonlinear_arith)
            requires
                q * count >= idx * d,
                0 <= idx <= count,
                count > 0,
                d <= 0,
                q <= 0,
        ;
    }
}

} // verus!
