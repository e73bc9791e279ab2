//! Paths: ordered lists of points, their length, and shortcut smoothing.

use crate::bound::{all_in_range, lemma_sample_between, sample_point, Collision};
use crate::math::{
    dist, dist_up, distance_up, div_round_to_zero, lemma_dist_up_symmetric,
    lemma_dist_up_triangle, lemma_dist_zero_iff_same, lemma_sqrt_ceil_least,
    lemma_sqrt_floor_exists, point_in_range, sq_dist, Point2D, DIST_LIMIT,
};
use crate::planner::{any_collision_segment, blocked_by_any, obstacles_well_formed};
use crate::rng::{fresh_rng, random_in_range};
use rand::rngs::StdRng;
use vstd::prelude::*;

verus! {

/// An ordered list of way points.
#[derive(Debug)]
pub struct Path2D(pub Vec<Point2D>);

impl Clone for Path2D {
    fn clone(&self) -> (r: Self)
        ensures
            r.0@ == self.0@,
    {
        Path2D(crate::rrtnode::copy_points(&self.0))
    }
}

/// The length of the way through the points `pts`: the sum of the
/// distances between neighbours, each rounded up, and zero for fewer than
/// two points.
pub open spec fn length_of(pts: Seq<Point2D>) -> int
    decreases pts.len(),
{
    if pts.len() < 2 {
        0
    } else {
        length_of(pts.drop_last()) + dist_up(pts[pts.len() - 1], pts[pts.len() - 2])
    }
}

/// The length walked after the legs 0 to `idx`, the leg `j` being the one
/// from the point `j` to the point `j + 1`.
pub open spec fn walked(pts: Seq<Point2D>, idx: int) -> int
    decreases idx + 1,
{
    if idx < 0 {
        0
    } else {
        walked(pts, idx - 1) + dist_up(pts[idx + 1], pts[idx])
    }
}

/// The walk toward the arc length `target` stops on the leg `idx`: the
/// first leg after which the length walked has reached `target`.
pub open spec fn stops_at(pts: Seq<Point2D>, target: int, idx: int) -> bool {
    &&& 0 <= idx < pts.len() - 1
    &&& walked(pts, idx) >= target
    &&& forall|j: int| 0 <= j < idx ==> #[trigger] walked(pts, j) < target
}

/// The leg on which the walk toward `target` stops.
pub open spec fn stop_of(pts: Seq<Point2D>, target: int) -> int {
    choose|idx: int| stops_at(pts, target, idx)
}

/// The walk toward `target` stops on a leg of positive length, so that a
/// target point can be told.
pub open spec fn can_locate(pts: Seq<Point2D>, target: int) -> bool {
    exists|idx: int| #[trigger] stops_at(pts, target, idx) && dist_up(pts[idx + 1], pts[idx]) > 0
}

/// The target point for the arc length `target`, and the place of the
/// point at which its leg begins. The point lies on the leg on which the
/// walk stops, as far from where the leg begins as `target` lies beyond
/// the length walked before the leg, each coordinate rounded toward the
/// beginning of the leg.
pub open spec fn located(pts: Seq<Point2D>, target: int) -> (Point2D, usize) {
    let idx = stop_of(pts, target);
    (
        sample_point(
            pts[idx],
            pts[idx + 1],
            target - walked(pts, idx - 1),
            dist_up(pts[idx + 1], pts[idx]),
        ),
        idx as usize,
    )
}

/// The way through points is never shorter than the distance between its
/// ends.
pub proof fn lemma_length_at_least_distance(pts: Seq<Point2D>)
    requires
        pts.len() >= 1,
    ensures
        length_of(pts) >= dist_up(pts[0], pts.last()) >= dist(pts[0], pts.last()),
    decreases pts.len(),
{
    lemma_dist_zero_iff_same(pts[0], pts.last());
    lemma_sqrt_floor_exists(sq_dist(pts[0], pts.last()));
    if pts.len() == 1 {
        crate::math::lemma_sqrt_floor_is(0, 0);
    } else {
        let shorter = pts.drop_last();
        lemma_length_at_least_distance(shorter);
        assert(shorter[0] == pts[0]);
        assert(shorter.last() == pts[pts.len() - 2]);
        lemma_dist_up_triangle(pts[0], pts[pts.len() - 2], pts.last());
        lemma_dist_up_symmetric(pts[pts.len() - 2], pts.last());
    }
}

/// The walk stops on one leg at most.
pub proof fn lemma_stop_is(pts: Seq<Point2D>, target: int, idx: int)
    requires
        stops_at(pts, target, idx),
    ensures
        stop_of(pts, target) == idx,
{
    let other = stop_of(pts, target);
    assert(stops_at(pts, target, other));
    if other < idx {
        assert(walked(pts, other) < target);
    } else if idx < other {
        assert(walked(pts, idx) < target);
    }
}

/// The trial with the arc lengths `lo <= hi` finds a connector: both
/// target points can be told, the first lies beyond the first leg and on a
/// leg before that of the second, and the straight line between the two is
/// barred by no obstacle.
pub open spec fn finds_connector(
    pts: Seq<Point2D>,
    obs: Seq<&dyn Collision>,
    lo: int,
    hi: int,
) -> bool {
    &&& can_locate(pts, lo)
    &&& can_locate(pts, hi)
    &&& 1 <= located(pts, lo).1 < located(pts, hi).1
    &&& !blocked_by_any(obs, located(pts, lo).0, located(pts, hi).0)
}

/// The trial with the arc lengths `lo <= hi` cuts the path short: it finds
/// a connector, and the path with the connector in it is no longer than
/// the path. Between exact target points a connector is never longer than
/// the way it replaces; between target points rounded onto the grid it can
/// be, and such a trial leaves the path as it is.
pub open spec fn can_shortcut(
    pts: Seq<Point2D>,
    obs: Seq<&dyn Collision>,
    lo: int,
    hi: int,
) -> bool {
    &&& finds_connector(pts, obs, lo, hi)
    &&& length_of(shortcut_of(pts, lo, hi)) <= length_of(pts)
}

/// The path with the connector of the trial with the arc lengths
/// `lo <= hi` in it: the points up to the one at which the leg of the first
/// target point begins, the two target points, and the points after the
/// leg of the second.
pub open spec fn shortcut_of(pts: Seq<Point2D>, lo: int, hi: int) -> Seq<Point2D> {
    let first = located(pts, lo);
    let second = located(pts, hi);
    pts.subrange(0, first.1 + 1) + seq![first.0, second.0] + pts.subrange(
        second.1 + 1,
        pts.len() as int,
    )
}

/// The trial with the arc lengths `lo <= hi` makes the path `out` of the
/// path `pts`.
pub open spec fn trial_gives(
    pts: Seq<Point2D>,
    obs: Seq<&dyn Collision>,
    lo: int,
    hi: int,
    out: Seq<Point2D>,
) -> bool {
    0 <= lo <= hi && can_shortcut(pts, obs, lo, hi) && out == shortcut_of(pts, lo, hi)
}

/// Some trial makes the path `out` of the path `pts`.
pub open spec fn cuts_short(
    pts: Seq<Point2D>,
    obs: Seq<&dyn Collision>,
    out: Seq<Point2D>,
) -> bool {
    exists|lo: int, hi: int| #[trigger] trial_gives(pts, obs, lo, hi, out)
}

/// The path `out` is what `rounds` trials at most can make of the path
/// `pts`: `pts` itself, or what one trial makes of such a path for one
/// round less.
pub open spec fn smoothed(
    pts: Seq<Point2D>,
    obs: Seq<&dyn Collision>,
    out: Seq<Point2D>,
    rounds: nat,
) -> bool
    decreases rounds,
{
    out == pts || (rounds > 0 && exists|mid: Seq<Point2D>| #[trigger]
        cuts_short(mid, obs, out) && smoothed(pts, obs, mid, (rounds - 1) as nat))
}

/// What some number of trials can make of a path, more trials can make of
/// it too.
pub proof fn lemma_smoothed_in_more_rounds(
    pts: Seq<Point2D>,
    obs: Seq<&dyn Collision>,
    out: Seq<Point2D>,
    rounds: nat,
)
    requires
        smoothed(pts, obs, out, rounds),
    ensures
        smoothed(pts, obs, out, rounds + 1),
    decreases rounds,
{
    if out != pts {
        let mid = choose|mid: Seq<Point2D>| #[trigger]
            cuts_short(mid, obs, out) && smoothed(pts, obs, mid, (rounds - 1) as nat);
        lemma_smoothed_in_more_rounds(pts, obs, mid, (rounds - 1) as nat);
        assert(cuts_short(mid, obs, out) && smoothed(pts, obs, mid, rounds));
    }
}

impl Path2D {
    /// The length of the path: the sum of the distances between
    /// neighbouring points, each rounded up. It is zero for fewer than two
    /// points, and never less than the distance between the ends of the
    /// path.
    pub fn path_length(&self) -> (r: u128)
        requires
            all_in_range(self.0@),
        ensures
            r == length_of(self.0@),
            self.0@.len() < 2 ==> r == 0,
            self.0@.len() >= 1 ==> r >= dist_up(self.0@[0], self.0@.last()) >= dist(
                self.0@[0],
                self.0@.last(),
            ),
    {
        proof {
            if self.0@.len() >= 1 {
                lemma_length_at_least_distance(self.0@);
            }
        }
        let mut total: u128 = 0;
        if self.0.len() == 0 {
            return total;
        }
        let mut idx: usize = 0;
        while idx < self.0.len() - 1
            invariant
                self.0.len() >= 1,
                idx <= self.0.len() - 1,
                all_in_range(self.0@),
                total == length_of(self.0@.subrange(0, idx + 1)),
                total <= idx * DIST_LIMIT,
            decreases self.0.len() - idx,
        {
            let d = distance_up(&self.0[idx + 1], &self.0[idx]);
            proof {
                let longer = self.0@.subrange(0, idx + 2);
                assert(longer.drop_last() == self.0@.subrange(0, idx + 1));
                assert(longer[longer.len() - 1] == self.0@[idx + 1]);
                assert(longer[longer.len() - 2] == self.0@[idx as int]);
                assert((idx + 1) * DIST_LIMIT == idx * DIST_LIMIT + DIST_LIMIT)
                    by (nonlinear_arith);
                assert(idx * DIST_LIMIT <= 18446744073709551615 * 4294967296) by (nonlinear_arith)
                    requires
                        idx <= 18446744073709551615,
                        DIST_LIMIT == 4294967296,
                ;
            }
            total = total + d as u128;
            idx += 1;
        }
        assert(self.0@.subrange(0, idx + 1) == self.0@);
        total
    }

    /// The target point for the arc length `target` with the place of the
    /// point at which its leg begins, where the walk stops on a leg of
    /// positive length.
    pub fn locate(&self, target: u64) -> (r: Option<(Point2D, usize)>)
        requires
            all_in_range(self.0@),
        ensures
            r is Some <==> can_locate(self.0@, target as int),
            r matches Some(found) ==> found == located(self.0@, target as int) && point_in_range(
                found.0,
            ) && found.1 + 1 < self.0@.len(),
    {
        if self.0.len() < 2 {
            return None;
        }
        let mut le: u128 = 0;
        let mut idx: usize = 0;
        while idx < self.0.len() - 1
            invariant
                self.0.len() >= 2,
                idx <= self.0.len() - 1,
                all_in_range(self.0@),
                le == walked(self.0@, idx - 1),
                le <= idx * DIST_LIMIT,
                forall|j: int| 0 <= j < idx ==> #[trigger] walked(self.0@, j) < target,
            decreases self.0.len() - idx,
        {
            let d: u64 = distance_up(&self.0[idx + 1], &self.0[idx]);
            let before: u128 = le;
            proof {
                assert((idx + 1) * DIST_LIMIT == idx * DIST_LIMIT + DIST_LIMIT)
                    by (nonlinear_arith);
                assert(idx * DIST_LIMIT <= 18446744073709551615 * 4294967296) by (nonlinear_arith)
                    requires
                        idx <= 18446744073709551615,
                        DIST_LIMIT == 4294967296,
                ;
            }
            le = le + d as u128;
            if le >= target as u128 {
                proof {
                    assert(stops_at(self.0@, target as int, idx as int));
                    lemma_stop_is(self.0@, target as int, idx as int);
                    if can_locate(self.0@, target as int) {
                        let other = choose|other: int| #[trigger]
                            stops_at(self.0@, target as int, other) && dist_up(
                                self.0@[other + 1],
                                self.0@[other],
                            ) > 0;
                        lemma_stop_is(self.0@, target as int, other);
                    }
                }
                if d == 0 {
                    return None;
                }
                let leg_start = self.0[idx];
                let leg_end = self.0[idx + 1];
                let part: i64 = (target as u128 - before) as i64;
                let dx: i64 = leg_end.0 - leg_start.0;
                let dy: i64 = leg_end.1 - leg_start.1;
                assert(-9223372034707292160 <= dx * part <= 9223372034707292160)
                    by (nonlinear_arith)
                    requires
                        0 <= part <= 4294967295,
                        -2147483648 <= dx <= 2147483648,
                ;
                assert(-9223372034707292160 <= dy * part <= 9223372034707292160)
                    by (nonlinear_arith)
                    requires
                        0 <= part <= 4294967295,
                        -2147483648 <= dy <= 2147483648,
                ;
                proof {
                    lemma_sample_between(leg_start, leg_end, part as int, d as int);
                    assert(part * dx == dx * part) by (nonlinear_arith);
                    assert(part * dy == dy * part) by (nonlinear_arith);
                }
                let x: i64 = leg_start.0 + div_round_to_zero(dx * part, d as i64);
                let y: i64 = leg_start.1 + div_round_to_zero(dy * part, d as i64);
                return Some(((x, y), idx));
            }
            idx += 1;
        }
        proof {
            if can_locate(self.0@, target as int) {
                let other = choose|other: int| #[trigger]
                    stops_at(self.0@, target as int, other) && dist_up(
                        self.0@[other + 1],
                        self.0@[other],
                    ) > 0;
                assert(walked(self.0@, other) < target);
            }
        }
        None
    }

    /// The target point for the arc length `target`, and the place of the
    /// point at which its leg begins. The walk must stop on a leg of
    /// positive length:
    /// the point is told by a division by that length.
    pub fn get_target_point(&self, target: u64) -> (r: (Point2D, usize))
        requires
            all_in_range(self.0@),
            can_locate(self.0@, target as int),
        ensures
            r == located(self.0@, target as int),
    {
        self.locate(target).unwrap()
    }

    /// One trial of shortcutting with the two arc lengths `first_draw` and
    /// `second_draw`, in either order: the path with the shortcut, or
    /// nothing where the trial leaves the path as it is. The two target
    /// points are rounded onto the grid; a trial whose connector would make
    /// the path longer, as the rounding can on slanted legs, leaves the
    /// path as it is.
    pub fn shortcut(
        &self,
        obstacles: &Vec<&dyn Collision>,
        first_draw: u64,
        second_draw: u64,
    ) -> (r: Option<Path2D>)
        requires
            all_in_range(self.0@),
            obstacles_well_formed(obstacles@),
        ensures
            ({
                let lo = if second_draw < first_draw {
                    second_draw
                } else {
                    first_draw
                };
                let hi = if second_draw < first_draw {
                    first_draw
                } else {
                    second_draw
                };
                &&& r is Some <==> can_shortcut(self.0@, obstacles@, lo as int, hi as int)
                &&& r matches Some(cut) ==> {
                    &&& cut.0@ == shortcut_of(self.0@, lo as int, hi as int)
                    &&& all_in_range(cut.0@)
                    &&& cut.0@[0] == self.0@[0]
                    &&& cut.0@.last() == self.0@.last()
                    &&& cut.0@.len() <= self.0@.len() + 1
                    &&& length_of(cut.0@) <= length_of(self.0@)
                }
            }),
    {
        let lo = if second_draw < first_draw {
            second_draw
        } else {
            first_draw
        };
        let hi = if second_draw < first_draw {
            first_draw
        } else {
            second_draw
        };
        let first = match self.locate(lo) {
            Some(f) => f,
            None => {
                return None;
            },
        };
        let second = match self.locate(hi) {
            Some(s) => s,
            None => {
                return None;
            },
        };
        if first.1 == 0 || second.1 == 0 {
            return None;
        }
        if second.1 <= first.1 {
            return None;
        }
        if any_collision_segment(obstacles, &first.0, &second.0) {
            return None;
        }
        let mut new_path: Vec<Point2D> = Vec::new();
        let mut idx: usize = 0;
        assert(first.1 + 2 <= self.0.len());
        assert(second.1 + 1 < self.0.len());
        let keep: usize = first.1 + 1;
        while idx < keep
            invariant
                idx <= keep,
                keep == first.1 + 1,
                first.1 + 2 <= self.0@.len(),
                new_path@ == self.0@.subrange(0, idx as int),
            decreases keep - idx,
        {
            new_path.push(self.0[idx]);
            idx += 1;
            assert(new_path@ == self.0@.subrange(0, idx as int));
        }
        new_path.push(first.0);
        new_path.push(second.0);
        let ghost head = new_path@;
        assert(head == self.0@.subrange(0, first.1 + 1) + seq![first.0, second.0]);
        let mut idx: usize = second.1 + 1;
        while idx < self.0.len()
            invariant
                second.1 + 1 <= idx <= self.0.len(),
                new_path@ == head + self.0@.subrange(second.1 + 1, idx as int),
            decreases self.0.len() - idx,
        {
            new_path.push(self.0[idx]);
            idx += 1;
            assert(new_path@ == head + self.0@.subrange(second.1 + 1, idx as int));
        }
        proof {
            let tail = self.0@.subrange(second.1 + 1, self.0@.len() as int);
            assert(new_path@ == head + tail);
            assert(new_path@[0] == self.0@[0]);
            assert(new_path@.last() == tail.last());
            assert forall|k: int| 0 <= k < new_path@.len() implies point_in_range(
                #[trigger] new_path@[k],
            ) by {
                if k < first.1 + 1 {
                    assert(new_path@[k] == self.0@[k]);
                } else if k >= first.1 + 3 {
                    assert(new_path@[k] == tail[k - (first.1 + 3)]);
                    assert(tail[k - (first.1 + 3)] == self.0@[k - (first.1 + 3) + second.1 + 1]);
                }
            }
        }
        let cut = Path2D(new_path);
        if cut.path_length() > self.path_length() {
            return None;
        }
        Some(cut)
    }

    /// Smooths the path by `max_iter` shortcut trials, each with two arc
    /// lengths drawn from `rng` below the length of the path as it then is.
    /// The path keeps its first and its last point and never grows longer.
    /// A path without length, or with a length beyond the range of the
    /// generator, is left as it is.
    pub fn path_smoothing_with(
        &self,
        obstacles: &Vec<&dyn Collision>,
        max_iter: u32,
        rng: &mut StdRng,
    ) -> (r: Self)
        requires
            all_in_range(self.0@),
            obstacles_well_formed(obstacles@),
        ensures
            smoothed(self.0@, obstacles@, r.0@, max_iter as nat),
            all_in_range(r.0@),
            max_iter == 0 ==> r.0@ == self.0@,
            r.0@.len() <= self.0@.len() + max_iter,
            self.0@.len() == 0 <==> r.0@.len() == 0,
            self.0@.len() > 0 ==> r.0@[0] == self.0@[0] && r.0@.last() == self.0@.last(),
            self.0@.len() < 4 ==> r.0@ == self.0@,
            length_of(r.0@) <= length_of(self.0@),
    {
        let mut path = Path2D(crate::rrtnode::copy_points(&self.0));
        let mut round: u32 = 0;
        while round < max_iter
            invariant
                round <= max_iter,
                smoothed(self.0@, obstacles@, path.0@, round as nat),
                all_in_range(path.0@),
                obstacles_well_formed(obstacles@),
                path.0@.len() <= self.0@.len() + round,
                round == 0 ==> path.0@ == self.0@,
                self.0@.len() == 0 <==> path.0@.len() == 0,
                self.0@.len() > 0 ==> path.0@[0] == self.0@[0] && path.0@.last() == self.0@.last(),
                self.0@.len() < 4 ==> path.0@ == self.0@,
                length_of(path.0@) <= length_of(self.0@),
            decreases max_iter - round,
        {
            proof {
                lemma_smoothed_in_more_rounds(self.0@, obstacles@, path.0@, round as nat);
            }
            round += 1;
            let le = path.path_length();
            if le == 0 || le > 9223372036854775807 {
                continue ;
            }
            let first_draw = random_in_range(rng, 0, le as i64) as u64;
            let second_draw = random_in_range(rng, 0, le as i64) as u64;
            match path.shortcut(obstacles, first_draw, second_draw) {
                Some(cut) => {
                    proof {
                        lemma_shortcut_needs_four(path.0@, obstacles@, first_draw, second_draw);
                        let lo = if second_draw < first_draw {
                            second_draw
                        } else {
                            first_draw
                        };
                        let hi = if second_draw < first_draw {
                            first_draw
                        } else {
                            second_draw
                        };
                        assert(trial_gives(
                            path.0@,
                            obstacles@,
                            lo as int,
                            hi as int,
                            cut.0@,
                        ));
                        assert(cuts_short(path.0@, obstacles@, cut.0@) && smoothed(
                            self.0@,
                            obstacles@,
                            path.0@,
                            (round - 1) as nat,
                        ));
                    }
                    path = cut;
                },
                None => {},
            }
        }
        path
    }

    /// Smooths the path by `max_iter` trials of shortcutting between two
    /// points drawn at random on it, each taken where no obstacle bars the
    /// straight line between the two, and where the path does not grow
    /// longer by it. The path keeps its first and its last point.
    pub fn path_smoothing_obstacle(&self, obstacles: &Vec<&dyn Collision>, max_iter: u32) -> (r:
        Self)
        requires
            all_in_range(self.0@),
            obstacles_well_formed(obstacles@),
        ensures
            smoothed(self.0@, obstacles@, r.0@, max_iter as nat),
            all_in_range(r.0@),
            max_iter == 0 ==> r.0@ == self.0@,
            r.0@.len() <= self.0@.len() + max_iter,
            self.0@.len() == 0 <==> r.0@.len() == 0,
            self.0@.len() > 0 ==> r.0@[0] == self.0@[0] && r.0@.last() == self.0@.last(),
            self.0@.len() < 4 ==> r.0@ == self.0@,
            length_of(r.0@) <= length_of(self.0@),
    {
        let mut rng = fresh_rng();
        self.path_smoothing_with(obstacles, max_iter, &mut rng)
    }
}

/// A path of fewer than four points has no two legs beyond the first on
/// which a trial could stop, and no trial changes it.
pub proof fn lemma_shortcut_needs_four(
    pts: Seq<Point2D>,
    obs: Seq<&dyn Collision>,
    first_draw: u64,
    second_draw: u64,
)
    ensures
        ({
            let lo = if second_draw < first_draw {
                second_draw
            } else {
                first_draw
            };
            let hi = if second_draw < first_draw {
                first_draw
            } else {
                second_draw
            };
            can_shortcut(pts, obs, lo as int, hi as int) ==> pts.len() >= 4
        }),
{
    let lo = if second_draw < first_draw {
        second_draw
    } else {
        first_draw
    };
    let hi = if second_draw < first_draw {
        first_draw
    } else {
        second_draw
    };
    if can_shortcut(pts, obs, lo as int, hi as int) {
        let a = choose|a: int| #[trigger]
            stops_at(pts, lo as int, a) && dist_up(pts[a + 1], pts[a]) > 0;
        let b = choose|b: int| #[trigger]
            stops_at(pts, hi as int, b) && dist_up(pts[b + 1], pts[b]) > 0;
        lemma_stop_is(pts, lo as int, a);
        lemma_stop_is(pts, hi as int, b);
    }
}

/// Smoothing never lengthens a path, whatever is drawn and however many
/// trials are made.
pub proof fn lemma_smoothed_length(
    pts: Seq<Point2D>,
    obs: Seq<&dyn Collision>,
    out: Seq<Point2D>,
    rounds: nat,
)
    requires
        smoothed(pts, obs, out, rounds),
    ensures
        length_of(out) <= length_of(pts),
    decreases rounds,
{
    if out != pts {
        let mid = choose|mid: Seq<Point2D>| #[trigger]
            cuts_short(mid, obs, out) && smoothed(pts, obs, mid, (rounds - 1) as nat);
        lemma_smoothed_length(pts, obs, mid, (rounds - 1) as nat);
        let (lo, hi) = choose|lo: int, hi: int| #[trigger] trial_gives(mid, obs, lo, hi, out);
        assert(can_shortcut(mid, obs, lo, hi));
    }
}

} // verus!
