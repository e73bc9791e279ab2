//! The optimising tree planner: every new node takes the cheapest parent
//! within reach, and nodes nearby are rewired through it where that makes
//! their way from the root shorter.

use crate::bound::{Collision, RectangleBounds};
use crate::logarithm::{
    lemma_ln_scaled_bounds, lemma_ln_scaled_error, ln_fixed, ln_scaled, ln_series_den,
    ln_series_num, LN_SCALE, LN_SLACK, LN_TERMS,
};
use crate::math::{
    dist, isqrt_wide, lemma_dist_zero_iff_same, lemma_sqrt_floor_exists, point_in_range,
    sqrt_floor, Point2D, COORD_LIMIT, DIST_LIMIT,
};
use crate::path::Path2D;
use crate::planner::{blocked_by_any, hits_any, obstacles_well_formed, Planner};
use crate::rrt::{edge_links, is_sample, is_steered, parent_place, steer_path, RRT};
use crate::rrtnode::{first_nearest, Node, RRTNode, RRTStarNode};
use crate::tree::{climb, entry_points, within_of, PathTree};
use vstd::prelude::*;

verus! {

/// The radius within which a tree of `n - 1` nodes looks for neighbours of
/// a new node: `connect * sqrt(ln(n) / n)`, rounded toward zero, but no more
/// than `expand`. The logarithm is taken in fixed point from below, so the
/// radius is the whole part of the exact one, or one less where the exact
/// one is a hair above a whole number: `lemma_near_radius_error`.
pub open spec fn near_radius(connect: int, expand: int, n: int) -> int {
    let q = (connect * connect * ln_scaled(n)) / (LN_SCALE * n);
    let rm = if connect >= 0 {
        sqrt_floor(q)
    } else {
        -sqrt_floor(q)
    };
    if rm < expand {
        rm
    } else {
        expand
    }
}

/// Where the radius is not the cap, its square times `n` is the largest
/// square that is no more than `connect^2` times the logarithm in fixed
/// point, and the square of the radius and two is above what `LN_SLACK`
/// parts more of the logarithm would give.
pub proof fn lemma_near_radius_bracket(connect: int, expand: int, n: int)
    requires
        0 <= connect <= 2 * COORD_LIMIT,
        1 <= n <= 8589934592,
    ensures
        ({
            let r = near_radius(connect, expand, n);
            let den = LN_SCALE * n;
            &&& r <= expand
            &&& r < expand ==> r >= 0 && r * r * den <= connect * connect * ln_scaled(n) < (r + 1)
                * (r + 1) * den
            &&& r < expand && n >= 2 ==> connect * connect * (ln_scaled(n) + LN_SLACK) < (r + 2)
                * (r + 2) * den
        }),
{
    let c2 = connect * connect;
    let ln = ln_scaled(n);
    let den = LN_SCALE * n;
    lemma_ln_scaled_bounds(n);
    assert(0 <= c2 <= 4611686018427387904) by (nonlinear_arith)
        requires
            c2 == connect * connect,
            0 <= connect <= 2147483648,
    ;
    assert(den > 0) by (nonlinear_arith)
        requires
            den == LN_SCALE * n,
            n >= 1,
            LN_SCALE == 1000000000000000000,
    ;
    assert(c2 * ln >= 0) by (nonlinear_arith)
        requires
            c2 >= 0,
            ln >= 0,
    ;
    let q = (c2 * ln) / den;
    assert(0 <= q && q * den <= c2 * ln < (q + 1) * den) by (nonlinear_arith)
        requires
            q == (c2 * ln) / den,
            den > 0,
            c2 * ln >= 0,
    ;
    assert(q <= 26 * c2) by (nonlinear_arith)
        requires
            q * den <= c2 * ln,
            ln <= 26 * LN_SCALE,
            den == LN_SCALE * n,
            n >= 1,
            LN_SCALE == 1000000000000000000,
            c2 >= 0,
            q >= 0,
    ;
    lemma_sqrt_floor_exists(q);
    let w = sqrt_floor(q);
    assert(w * w * den <= c2 * ln) by (nonlinear_arith)
        requires
            w * w <= q,
            q * den <= c2 * ln,
            den > 0,
    ;
    assert(c2 * ln < (w + 1) * (w + 1) * den) by (nonlinear_arith)
        requires
            q + 1 <= (w + 1) * (w + 1),
            c2 * ln < (q + 1) * den,
            den > 0,
    ;
    if n >= 2 {
        assert(w <= 10960000000) by (nonlinear_arith)
            requires
                w * w <= q,
                q <= 26 * 4611686018427387904,
                w >= 0,
        ;
        assert(LN_SLACK * ((w + 1) * (w + 1)) <= (2 * w + 3) * ln) by (nonlinear_arith)
            requires
                0 <= w <= 10960000000,
                3 * ln >= 2 * LN_SCALE - 6,
                LN_SCALE == 1000000000000000000,
                LN_SLACK == 6000,
        ;
        assert(c2 * LN_SLACK * ln <= LN_SLACK * ((w + 1) * (w + 1)) * den) by (nonlinear_arith)
            requires
                c2 * ln < (w + 1) * (w + 1) * den,
                LN_SLACK == 6000,
        ;
        assert(c2 * LN_SLACK * ln <= (2 * w + 3) * den * ln) by (nonlinear_arith)
            requires
                c2 * LN_SLACK * ln <= LN_SLACK * ((w + 1) * (w + 1)) * den,
                LN_SLACK * ((w + 1) * (w + 1)) <= (2 * w + 3) * ln,
                den > 0,
        ;
        assert(c2 * LN_SLACK <= (2 * w + 3) * den) by (nonlinear_arith)
            requires
                c2 * LN_SLACK * ln <= (2 * w + 3) * den * ln,
                ln > 0,
        ;
        assert(c2 * (ln + LN_SLACK) < (w + 2) * (w + 2) * den) by (nonlinear_arith)
            requires
                c2 * ln < (w + 1) * (w + 1) * den,
                c2 * LN_SLACK <= (2 * w + 3) * den,
        ;
    }
}

/// The radius against the formula. Where the radius is not the cap, the
/// exact `connect * sqrt(v / n)` lies between the radius and the radius
/// and two, for every exact value `v` of the series of the logarithm with
/// `LN_TERMS` terms or more, and so for the natural logarithm of `n`, toward
/// which those values grow: the radius is the whole part of the formula or
/// one less.
pub proof fn lemma_near_radius_error(connect: int, expand: int, n: int, terms: nat)
    requires
        0 <= connect <= 2 * COORD_LIMIT,
        2 <= n <= 8589934592,
        terms >= LN_TERMS,
        near_radius(connect, expand, n) < expand,
    ensures
        ({
            let r = near_radius(connect, expand, n);
            let num = ln_series_num(n, terms);
            let den = ln_series_den(n, terms);
            &&& 0 <= r && 0 < den
            &&& r * r * (n * den) <= connect * connect * num < (r + 2) * (r + 2) * (n * den)
        }),
{
    let r = near_radius(connect, expand, n);
    let num = ln_series_num(n, terms);
    let den = ln_series_den(n, terms);
    let ln = ln_scaled(n);
    let s = LN_SCALE as int;
    let c2 = connect * connect;
    lemma_near_radius_bracket(connect, expand, n);
    lemma_ln_scaled_error(n, terms);
    let sn = s * n;
    let low = r * r * sn;
    let high = (r + 2) * (r + 2) * sn;
    let mid_low = c2 * ln;
    let mid_high = c2 * (ln + LN_SLACK);
    let a = ln * den;
    let b = s * num;
    let c = (ln + LN_SLACK) * den;
    assert(c2 >= 0) by (nonlinear_arith)
        requires
            c2 == connect * connect,
    ;
    assert(low * den <= mid_low * den && mid_high * den < high * den) by (nonlinear_arith)
        requires
            low <= mid_low,
            mid_high < high,
            den > 0,
    ;
    assert(c2 * a <= c2 * b <= c2 * c) by (nonlinear_arith)
        requires
            a <= b <= c,
            c2 >= 0,
    ;
    assert(mid_low * den == c2 * a && mid_high * den == c2 * c) by (nonlinear_arith)
        requires
            mid_low == c2 * ln,
            mid_high == c2 * (ln + LN_SLACK),
            a == ln * den,
            c == (ln + LN_SLACK) * den,
    ;
    let x = r * r * (n * den);
    let y = c2 * num;
    let z = (r + 2) * (r + 2) * (n * den);
    assert(low * den == s * x && high * den == s * z && c2 * b == s * y) by (nonlinear_arith)
        requires
            low == r * r * sn,
            high == (r + 2) * (r + 2) * sn,
            sn == s * n,
            x == r * r * (n * den),
            z == (r + 2) * (r + 2) * (n * den),
            b == s * num,
            y == c2 * num,
    ;
    assert(x <= y < z) by (nonlinear_arith)
        requires
            s * x <= s * y,
            s * y < s * z,
            s == 1000000000000000000,
    ;
}

/// The near radius for a tree that is to hold `n` nodes. Where it is not
/// the cap, it is the largest whole number whose square times `n` is no
/// more than `connect^2` times the logarithm in fixed point, and less than
/// two below what the logarithm itself would give.
pub fn near_radius_of(connect: i64, expand: i64, n: u64) -> (r: i64)
    requires
        -2 * COORD_LIMIT <= connect <= 2 * COORD_LIMIT,
        1 <= n <= 8589934592,
    ensures
        r == near_radius(connect as int, expand as int, n as int),
        r <= expand,
        connect >= 0 && r < expand ==> r >= 0 && r * r * (LN_SCALE * n) <= connect * connect
            * ln_scaled(n as int) < (r + 1) * (r + 1) * (LN_SCALE * n),
        connect >= 0 && r < expand && n >= 2 ==> connect * connect * (ln_scaled(n as int)
            + LN_SLACK) < (r + 2) * (r + 2) * (LN_SCALE * n),
{
    let c: i64 = connect;
    assert(0 <= c * c <= 4611686018427387904) by (nonlinear_arith)
        requires
            -2147483648 <= c <= 2147483648,
    ;
    let c2: u128 = (c * c) as u128;
    let ln: u128 = ln_fixed(n);
    assert(c2 * ln <= 4611686018427387904 * 26000000000000000000) by (nonlinear_arith)
        requires
            0 <= c2 <= 4611686018427387904,
            0 <= ln <= 26000000000000000000,
    ;
    assert(0 < LN_SCALE * n <= 1000000000000000000 * 8589934592) by (nonlinear_arith)
        requires
            1 <= n <= 8589934592,
            LN_SCALE == 1000000000000000000,
    ;
    let den: u128 = LN_SCALE * (n as u128);
    let q: u128 = (c2 * ln) / den;
    assert(q * den <= c2 * ln < (q + 1) * den) by (nonlinear_arith)
        requires
            q == (c2 * ln) / (den as int),
            den > 0,
            c2 * ln >= 0,
    ;
    assert(q <= 26 * c2) by (nonlinear_arith)
        requires
            q * den <= c2 * ln,
            ln <= 26 * LN_SCALE,
            den == LN_SCALE * n,
            n >= 1,
            LN_SCALE == 1000000000000000000,
            c2 >= 0,
            q >= 0,
    ;
    let wide_root: u128 = isqrt_wide(q);
    assert(wide_root < 9223372036854775808) by (nonlinear_arith)
        requires
            wide_root * wide_root <= q,
            q <= 26 * 4611686018427387904,
            wide_root >= 0,
    ;
    proof {
        if connect >= 0 {
            lemma_near_radius_bracket(connect as int, expand as int, n as int);
        }
    }
    let root: i128 = wide_root as i128;
    let rm: i128 = if c >= 0 {
        root
    } else {
        -root
    };
    if rm < expand as i128 {
        rm as i64
    } else {
        expand
    }
}

/// The greatest cost of a node in a tree of `n` nodes.
pub open spec fn cost_limit(n: int) -> int {
    (n - 1) * (DIST_LIMIT - 1)
}

/// The cost of the node `k` is the cost of its parent plus the distance
/// between the two.
pub open spec fn cost_adds_up(m: Map<usize, RRTStarNode>, k: usize) -> bool {
    let p = parent_place(m[k].node.parent_id) as usize;
    m[k].cost == m[p].cost + dist(m[k].node.point, m[p].node.point)
}

/// The records form a tree of `n` nodes rooted at `start`, whatever their
/// costs: the identifiers are the numbers below `n`, the node 0 is the root
/// at `start`, every other node names another node of the tree as its
/// parent and stores an edge that leads from there to it, and no two nodes
/// lie at one point.
pub open spec fn star_shape(m: Map<usize, RRTStarNode>, n: int, start: Point2D) -> bool {
    &&& n >= 1
    &&& n <= u32::MAX + 1
    &&& forall|k: usize| #[trigger] m.contains_key(k) <==> k < n
    &&& m[0].node.parent_id is None
    &&& m[0].node.point == start
    &&& m[0].cost == 0
    &&& forall|k: usize|
        k < n ==> (#[trigger] m[k]).node.id == k && point_in_range(m[k].node.point) && m[k].cost
            <= cost_limit(n)
    &&& forall|k: usize|
        1 <= k < n ==> match (#[trigger] m[k]).node.parent_id {
            Some(p) => p < n && p != k && edge_links(m[p].node.point, m[k].node),
            None => false,
        }
    &&& forall|j: usize, k: usize|
        j < n && k < n && j != k ==> (#[trigger] m[j]).node.point != (#[trigger] m[k]).node.point
}

/// Every node but the root stores an edge that was steered from its
/// parent.
pub open spec fn star_steered(m: Map<usize, RRTStarNode>, n: int, expand: int, res: int) -> bool {
    forall|k: usize|
        1 <= k < n ==> is_steered(
            m[parent_place((#[trigger] m[k]).node.parent_id) as usize].node.point,
            m[k].node.path@,
            expand,
            res,
        )
}

/// A tree of steered edges stays one while every node keeps its point and
/// all but the node `idx` keep their parent and their edge, and the node
/// `idx` stores an edge steered from its parent.
pub proof fn lemma_steered_kept(
    m: Map<usize, RRTStarNode>,
    m2: Map<usize, RRTStarNode>,
    n: int,
    n2: int,
    idx: usize,
    expand: int,
    res: int,
)
    requires
        star_steered(m, n, expand, res),
        forall|k: usize| k < n ==> (#[trigger] m2[k]).node.point == m[k].node.point,
        forall|k: usize|
            1 <= k < n && k != idx ==> (#[trigger] m2[k]).node.parent_id == m[k].node.parent_id
                && m2[k].node.path@ == m[k].node.path@ && 0 <= parent_place(m[k].node.parent_id)
                < n,
        n2 == n || (n2 == n + 1 && idx == n),
        1 <= idx < n2 ==> is_steered(
            m2[parent_place(m2[idx].node.parent_id) as usize].node.point,
            m2[idx].node.path@,
            expand,
            res,
        ),
    ensures
        star_steered(m2, n2, expand, res),
{
    assert forall|k: usize| 1 <= k < n2 implies is_steered(
        m2[parent_place((#[trigger] m2[k]).node.parent_id) as usize].node.point,
        m2[k].node.path@,
        expand,
        res,
    ) by {
        if k != idx {
            let p = parent_place(m[k].node.parent_id) as usize;
            assert(m2[p].node.point == m[p].node.point);
            assert(is_steered(m[p].node.point, m[k].node.path@, expand, res));
        }
    }
}

/// Every node but the root lies in no obstacle, and the straight line
/// between it and its parent was found free of every obstacle, from the
/// parent's end or from its own.
pub open spec fn star_clear(m: Map<usize, RRTStarNode>, n: int, obs: Seq<&dyn Collision>) -> bool {
    forall|k: usize|
        1 <= k < n ==> {
            let p = parent_place((#[trigger] m[k]).node.parent_id) as usize;
            &&& !hits_any(obs, m[k].node.point)
            &&& !blocked_by_any(obs, m[p].node.point, m[k].node.point) || !blocked_by_any(
                obs,
                m[k].node.point,
                m[p].node.point,
            )
        }
}

/// A tree of clear nodes stays one while every node keeps its point and
/// all but the node `idx` keep their parent, and the node `idx` is clear.
pub proof fn lemma_clear_kept(
    m: Map<usize, RRTStarNode>,
    m2: Map<usize, RRTStarNode>,
    n: int,
    n2: int,
    idx: usize,
    obs: Seq<&dyn Collision>,
)
    requires
        star_clear(m, n, obs),
        forall|k: usize| k < n ==> (#[trigger] m2[k]).node.point == m[k].node.point,
        forall|k: usize|
            1 <= k < n && k != idx ==> (#[trigger] m2[k]).node.parent_id == m[k].node.parent_id
                && 0 <= parent_place(m[k].node.parent_id) < n,
        n2 == n || (n2 == n + 1 && idx == n),
        1 <= idx < n2 ==> {
            let p = parent_place(m2[idx].node.parent_id) as usize;
            &&& !hits_any(obs, m2[idx].node.point)
            &&& !blocked_by_any(obs, m2[p].node.point, m2[idx].node.point) || !blocked_by_any(
                obs,
                m2[idx].node.point,
                m2[p].node.point,
            )
        },
    ensures
        star_clear(m2, n2, obs),
{
    assert forall|k: usize| 1 <= k < n2 implies ({
        let p = parent_place((#[trigger] m2[k]).node.parent_id) as usize;
        &&& !hits_any(obs, m2[k].node.point)
        &&& !blocked_by_any(obs, m2[p].node.point, m2[k].node.point) || !blocked_by_any(
            obs,
            m2[k].node.point,
            m2[p].node.point,
        )
    }) by {
        if k != idx {
            let p = parent_place(m[k].node.parent_id) as usize;
            assert(m2[p].node.point == m[p].node.point);
            assert(m2[k].node.point == m[k].node.point);
        }
    }
}

/// The records form a tree in which every cost adds up.
pub open spec fn star_ok(m: Map<usize, RRTStarNode>, n: int, start: Point2D) -> bool {
    &&& star_shape(m, n, start)
    &&& forall|k: usize| 1 <= k < n ==> #[trigger] cost_adds_up(m, k)
}

/// The numbers below `n`.
pub open spec fn below(n: nat) -> Set<usize> {
    Set::new(|x: usize| x < n)
}

/// There are `n` numbers below `n`.
pub proof fn lemma_below_len(n: nat)
    requires
        n <= usize::MAX + 1,
    ensures
        below(n).finite(),
        below(n).len() == n,
    decreases n,
{
    if n == 0 {
        assert(below(0) == Set::<usize>::empty());
    } else {
        lemma_below_len((n - 1) as nat);
        assert(below(n) == below((n - 1) as nat).insert((n - 1) as usize));
    }
}

/// A list of distinct numbers below `n` holds `n` numbers at most.
pub proof fn lemma_distinct_below(s: Seq<usize>, n: nat)
    requires
        s.no_duplicates(),
        forall|i: int| 0 <= i < s.len() ==> #[trigger] s[i] < n,
        n <= usize::MAX + 1,
    ensures
        s.len() <= n,
{
    lemma_below_len(n);
    s.unique_seq_to_set();
    assert(s.to_set().subset_of(below(n))) by {
        assert forall|x: usize| s.to_set().contains(x) implies below(n).contains(x) by {
            let i = choose|i: int| 0 <= i < s.len() && s[i] == x;
            assert(s[i] < n);
        }
    }
    vstd::set_lib::lemma_len_subset(s.to_set(), below(n));
}

/// The cost of the node `k` is `delta` more than the cost of its parent
/// plus the distance between the two.
pub open spec fn cost_is_stale(m: Map<usize, RRTStarNode>, k: usize, delta: int) -> bool {
    let p = parent_place(m[k].node.parent_id) as usize;
    m[k].cost == m[p].cost + dist(m[k].node.point, m[p].node.point) + delta
}

/// The children of the node `p` from the place `from` on still wait for
/// their costs to be lowered: `p` is on the stack, or it is the node in
/// work.
pub open spec fn awaits(stack: Seq<usize>, work: Option<(usize, int)>, p: usize, k: usize) -> bool {
    stack.contains(p) || (work matches Some(w) && w.0 == p && k >= w.1)
}

/// The state of a tree while the costs below the node `near`, which was
/// lowered by `delta`, are brought up to date: the nodes `lowered` have
/// their new cost, the nodes on `stack` among them have children that
/// still wait, and every other cost is as it was.
pub open spec fn settling(
    m: Map<usize, RRTStarNode>,
    n: int,
    start: Point2D,
    near: usize,
    delta: int,
    lowered: Seq<usize>,
    stack: Seq<usize>,
    work: Option<(usize, int)>,
) -> bool {
    &&& star_shape(m, n, start)
    &&& delta > 0
    &&& 1 <= near < n
    &&& lowered.contains(near)
    &&& lowered.no_duplicates()
    &&& stack.no_duplicates()
    &&& forall|i: int| 0 <= i < lowered.len() ==> 1 <= #[trigger] lowered[i] < n
    &&& forall|i: int| 0 <= i < lowered.len() ==> m[#[trigger] lowered[i]].cost >= m[near].cost
    &&& forall|i: int| 0 <= i < stack.len() ==> lowered.contains(#[trigger] stack[i])
    &&& work matches Some(w) ==> lowered.contains(w.0) && !stack.contains(w.0) && 0 <= w.1
    &&& m[parent_place(m[near].node.parent_id) as usize].cost < m[near].cost
    &&& forall|k: usize|
        1 <= k < n ==> {
            let p = parent_place((#[trigger] m[k]).node.parent_id) as usize;
            if lowered.contains(k) {
                &&& cost_adds_up(m, k)
                &&& k != near ==> lowered.contains(p) && !awaits(stack, work, p, k)
            } else if lowered.contains(p) {
                cost_is_stale(m, k, delta) && awaits(stack, work, p, k)
            } else {
                cost_adds_up(m, k)
            }
        }
}

/// One step of settling: the cost of the node `k`, a child of the node
/// `x` in work, is lowered by `delta`, and `k` joins the stack.
pub proof fn lemma_lowered_child(
    m: Map<usize, RRTStarNode>,
    m2: Map<usize, RRTStarNode>,
    n: int,
    start: Point2D,
    near: usize,
    delta: int,
    lowered: Seq<usize>,
    stack: Seq<usize>,
    x: usize,
    k: usize,
)
    requires
        settling(m, n, start, near, delta, lowered, stack, Some((x, k as int))),
        1 <= k < n,
        m[k].node.parent_id == Some(x),
        m2.dom() == m.dom(),
        forall|j: usize| j < n && j != k ==> m2[j] == m[j],
        m2[k].node.same_as(&m[k].node),
        m2[k].cost == m[x].cost + dist(m[k].node.point, m[x].node.point),
    ensures
        settling(m2, n, start, near, delta, lowered.push(k), stack.push(k), Some((x, k + 1))),
        m2[k].cost <= m[k].cost,
        m[k].cost > m[near].cost,
        k != near,
{
    let work = Some((x, k as int));
    let work2 = Some((x, k as int + 1));
    let lowered2 = lowered.push(k);
    let stack2 = stack.push(k);
    assert(m[k].node.parent_id == Some(x));
    assert(!lowered.contains(k)) by {
        if lowered.contains(k) {
            if k != near {
                assert(awaits(stack, work, x, k));
            } else {
                let i = choose|i: int| 0 <= i < lowered.len() && lowered[i] == x;
                assert(m[lowered[i]].cost >= m[near].cost);
            }
        }
    }
    assert(lowered.contains(x));
    assert(cost_is_stale(m, k, delta));
    let ix = choose|i: int| 0 <= i < lowered.len() && lowered[i] == x;
    assert(m[lowered[ix]].cost >= m[near].cost);
    let pn = parent_place(m[near].node.parent_id) as usize;
    lemma_dist_zero_iff_same(m[k].node.point, m[x].node.point);
    assert(m[k].cost > m[pn].cost);
    assert(k != pn);
    assert(k != near);
    assert(x != k);
    assert(lowered2.last() == k);
    assert(stack2.last() == k);
    assert forall|j: usize| lowered2.contains(j) == (lowered.contains(j) || j == k) by {
        if lowered.contains(j) {
            let i = choose|i: int| 0 <= i < lowered.len() && lowered[i] == j;
            assert(lowered2[i] == j);
        }
        if lowered2.contains(j) {
            let i = choose|i: int| 0 <= i < lowered2.len() && lowered2[i] == j;
            if i < lowered.len() {
                assert(lowered[i] == j);
            }
        }
    }
    assert forall|j: usize| stack2.contains(j) == (stack.contains(j) || j == k) by {
        if stack.contains(j) {
            let i = choose|i: int| 0 <= i < stack.len() && stack[i] == j;
            assert(stack2[i] == j);
        }
        if stack2.contains(j) {
            let i = choose|i: int| 0 <= i < stack2.len() && stack2[i] == j;
            if i < stack.len() {
                assert(stack[i] == j);
            }
        }
    }
    assert(!stack.contains(k)) by {
        if stack.contains(k) {
            let i = choose|i: int| 0 <= i < stack.len() && stack[i] == k;
            assert(lowered.contains(stack[i]));
        }
    }
    assert(lowered2.no_duplicates());
    assert(stack2.no_duplicates());
    assert(star_shape(m2, n, start)) by {
        assert forall|j: usize| j < n implies (#[trigger] m2[j]).node.id == j && point_in_range(
            m2[j].node.point,
        ) && m2[j].cost <= cost_limit(n) by {
            assert(m[j].node.id == j);
        }
        assert forall|j: usize| 1 <= j < n implies match (#[trigger] m2[j]).node.parent_id {
            Some(p) => p < n && p != j && edge_links(m2[p].node.point, m2[j].node),
            None => false,
        } by {
            assert(m[j].node.parent_id is Some);
            let p = m[j].node.parent_id->0;
            assert(edge_links(m[p].node.point, m[j].node));
            assert(m2[p].node.point == m[p].node.point);
        }
        assert forall|i: usize, j: usize| i < n && j < n && i != j implies (
        #[trigger] m2[i]).node.point != (#[trigger] m2[j]).node.point by {
            assert(m[i].node.point != m[j].node.point);
        }
        assert(m2[0] == m[0]);
    }
    assert forall|i: int| 0 <= i < lowered2.len() implies 1 <= #[trigger] lowered2[i] < n by {
        if i < lowered.len() {
            assert(lowered2[i] == lowered[i]);
        }
    }
    assert forall|i: int| 0 <= i < lowered2.len() implies m2[#[trigger] lowered2[i]].cost
        >= m2[near].cost by {
        if i < lowered.len() {
            assert(lowered2[i] == lowered[i]);
            assert(lowered.contains(lowered[i]));
            assert(m[lowered[i]].cost >= m[near].cost);
        }
    }
    assert forall|i: int| 0 <= i < stack2.len() implies lowered2.contains(
        #[trigger] stack2[i],
    ) by {
        if i < stack.len() {
            assert(stack2[i] == stack[i]);
            assert(lowered.contains(stack[i]));
        }
    }
    assert forall|j: usize| 1 <= j < n implies ({
        let p = parent_place((#[trigger] m2[j]).node.parent_id) as usize;
        if lowered2.contains(j) {
            &&& cost_adds_up(m2, j)
            &&& j != near ==> lowered2.contains(p) && !awaits(stack2, work2, p, j)
        } else if lowered2.contains(p) {
            cost_is_stale(m2, j, delta) && awaits(stack2, work2, p, j)
        } else {
            cost_adds_up(m2, j)
        }
    }) by {
        let p = parent_place(m[j].node.parent_id) as usize;
        assert(m[j].node.parent_id is Some);
        assert(p == parent_place(m2[j].node.parent_id) as usize);
        assert(m2[j].node.point == m[j].node.point);
        assert(m2[p].node.point == m[p].node.point);
        if j == k {
        } else if p == k {
            if lowered.contains(j) {
                if j != near {
                    assert(lowered.contains(p));
                } else {
                    assert(p == pn);
                }
            }
            assert(cost_adds_up(m, j));
        } else {
            assert(m2[j] == m[j]);
            assert(m2[p] == m[p]);
        }
    }
}

/// The start of settling: in a tree whose costs add up, the node `idx` was
/// given the node `new_id` as its parent and a cost that is `delta` less.
pub proof fn lemma_rewired_starts_settling(
    m: Map<usize, RRTStarNode>,
    m2: Map<usize, RRTStarNode>,
    n: int,
    start: Point2D,
    new_id: usize,
    idx: usize,
    delta: int,
)
    requires
        star_ok(m, n, start),
        new_id < n,
        idx < n,
        m2.dom() == m.dom(),
        forall|j: usize| j < n && j != idx ==> m2[j] == m[j],
        m2[idx].node.id == idx,
        m2[idx].node.point == m[idx].node.point,
        m2[idx].node.parent_id == Some(new_id),
        edge_links(m[new_id].node.point, m2[idx].node),
        m2[idx].cost == m[new_id].cost + dist(m[idx].node.point, m[new_id].node.point),
        m2[idx].cost < m[idx].cost,
        delta == m[idx].cost - m2[idx].cost,
    ensures
        idx != 0,
        idx != new_id,
        settling(m2, n, start, idx, delta, seq![idx], seq![idx], None),
{
    lemma_dist_zero_iff_same(m[idx].node.point, m[new_id].node.point);
    assert(idx != new_id);
    assert(idx != 0);
    let lowered = seq![idx];
    assert(lowered[0] == idx);
    assert forall|j: usize| lowered.contains(j) == (j == idx) by {}
    assert(m2[0] == m[0]);
    assert(star_shape(m2, n, start)) by {
        assert forall|j: usize| j < n implies (#[trigger] m2[j]).node.id == j && point_in_range(
            m2[j].node.point,
        ) && m2[j].cost <= cost_limit(n) by {
            assert(m[j].node.id == j);
        }
        assert forall|j: usize| 1 <= j < n implies match (#[trigger] m2[j]).node.parent_id {
            Some(p) => p < n && p != j && edge_links(m2[p].node.point, m2[j].node),
            None => false,
        } by {
            if j != idx {
                assert(m[j].node.parent_id is Some);
                let p = m[j].node.parent_id->0;
                assert(edge_links(m[p].node.point, m[j].node));
                assert(m2[p].node.point == m[p].node.point);
            } else {
                assert(m2[new_id].node.point == m[new_id].node.point);
            }
        }
        assert forall|i: usize, j: usize| i < n && j < n && i != j implies (
        #[trigger] m2[i]).node.point != (#[trigger] m2[j]).node.point by {
            assert(m[i].node.point != m[j].node.point);
        }
    }
    assert forall|j: usize| 1 <= j < n implies ({
        let p = parent_place((#[trigger] m2[j]).node.parent_id) as usize;
        if lowered.contains(j) {
            &&& cost_adds_up(m2, j)
            &&& j != idx ==> lowered.contains(p) && !awaits(lowered, None, p, j)
        } else if lowered.contains(p) {
            cost_is_stale(m2, j, delta) && awaits(lowered, None, p, j)
        } else {
            cost_adds_up(m2, j)
        }
    }) by {
        if j != idx {
            assert(cost_adds_up(m, j));
            assert(m2[j] == m[j]);
            let p = parent_place(m[j].node.parent_id) as usize;
            assert(m[j].node.parent_id is Some);
            if p != idx {
                assert(m2[p] == m[p]);
            }
        }
    }
}

/// A tree whose costs add up stays one when a node joins it that lies at a
/// new point, names a node of the tree as its parent, stores an edge from
/// there, and whose cost adds up.
pub proof fn lemma_joined(
    m: Map<usize, RRTStarNode>,
    m2: Map<usize, RRTStarNode>,
    n: int,
    start: Point2D,
    record: RRTStarNode,
)
    requires
        star_ok(m, n, start),
        n <= u32::MAX,
        m2 == m.insert(n as usize, record),
        record.node.id == n,
        point_in_range(record.node.point),
        forall|k: usize| k < n ==> (#[trigger] m[k]).node.point != record.node.point,
        record.node.parent_id matches Some(p) && p < n && edge_links(m[p].node.point, record.node)
            && record.cost == m[p].cost + dist(record.node.point, m[p].node.point),
    ensures
        star_ok(m2, n + 1, start),
{
    let id = n as usize;
    let p = record.node.parent_id->0;
    assert(m[p].cost <= cost_limit(n));
    lemma_dist_zero_iff_same(record.node.point, m[p].node.point);
    crate::math::lemma_sqrt_floor_exists(crate::math::sq_dist(record.node.point, m[p].node.point));
    lemma_dist_below_limit(record.node.point, m[p].node.point);
    assert(record.cost <= cost_limit(n + 1)) by (nonlinear_arith)
        requires
            record.cost <= (n - 1) * (DIST_LIMIT - 1) + (DIST_LIMIT - 1),
            cost_limit(n + 1) == (n + 1 - 1) * (DIST_LIMIT - 1),
    ;
    assert(cost_limit(n) <= cost_limit(n + 1)) by (nonlinear_arith)
        requires
            cost_limit(n) == (n - 1) * (DIST_LIMIT - 1),
            cost_limit(n + 1) == (n + 1 - 1) * (DIST_LIMIT - 1),
            DIST_LIMIT == 4294967296,
    ;
    assert forall|k: usize| #[trigger] m2.contains_key(k) <==> k < n + 1 by {
        assert(m.contains_key(k) <==> k < n);
    }
    assert forall|k: usize| k < n + 1 implies (#[trigger] m2[k]).node.id == k && point_in_range(
        m2[k].node.point,
    ) && m2[k].cost <= cost_limit(n + 1) by {
        if k < n {
            assert(m[k].node.id == k);
        }
    }
    assert forall|k: usize| 1 <= k < n + 1 implies match (#[trigger] m2[k]).node.parent_id {
        Some(q) => q < n + 1 && q != k && edge_links(m2[q].node.point, m2[k].node),
        None => false,
    } by {
        if k < n {
            assert(m[k].node.parent_id is Some);
        }
    }
    assert forall|j: usize, k: usize| j < n + 1 && k < n + 1 && j != k implies (
    #[trigger] m2[j]).node.point != (#[trigger] m2[k]).node.point by {
        if j < n && k < n {
            assert(m[j].node.point != m[k].node.point);
        } else if j < n {
            assert(m[j].node.point != record.node.point);
        } else {
            assert(m[k].node.point != record.node.point);
        }
    }
    assert forall|k: usize| 1 <= k < n + 1 implies #[trigger] cost_adds_up(m2, k) by {
        if k < n {
            assert(cost_adds_up(m, k));
            assert(m[k].node.parent_id is Some);
        }
    }
    assert(m2[0] == m[0]);
}

/// Two points in range are less than the distance limit apart.
pub proof fn lemma_dist_below_limit(a: Point2D, b: Point2D)
    requires
        point_in_range(a),
        point_in_range(b),
    ensures
        0 <= dist(a, b) <= DIST_LIMIT - 1,
{
    let dx = a.0 - b.0;
    let dy = a.1 - b.1;
    let s = crate::math::sq_dist(a, b);
    assert(0 <= dx * dx <= 4611686018427387904 && 0 <= dy * dy <= 4611686018427387904)
        by (nonlinear_arith)
        requires
            -2147483648 <= dx <= 2147483648,
            -2147483648 <= dy <= 2147483648,
    ;
    crate::math::lemma_sqrt_floor_exists(s);
    let r = dist(a, b);
    assert(r <= 4294967295) by (nonlinear_arith)
        requires
            r >= 0,
            r * r <= s,
            s <= 9223372036854775808,
    ;
}

/// In a tree whose index and map agree, no record lies at a point that the
/// index does not hold.
pub proof fn lemma_new_point(tree: &PathTree<RRTStarNode>, pt: Point2D)
    requires
        tree.well_formed(),
        !tree.index.has_point(pt),
    ensures
        forall|k: usize|
            tree.b_map@.contains_key(k) ==> (#[trigger] tree.b_map@[k]).node.point != pt,
{
    assert forall|k: usize| tree.b_map@.contains_key(k) implies (
    #[trigger] tree.b_map@[k]).node.point != pt by {
        let q = tree.b_map@[k].node.point;
        assert(tree.index.holds(q, k));
        let i = choose|i: int|
            0 <= i < tree.index.entries@.len() && tree.index.entries@[i] == (q, k);
        assert(tree.index.entries@[i].0 == q);
    }
}

/// The way up from the node `k` ends at the root before the fuel `f` runs
/// out, given the nodes `seen` that lie below `k` on one way up: they are
/// all different, and a tree of `n` nodes has no room for more than `n`.
pub proof fn lemma_climb_with_seen(
    m: Map<usize, RRTStarNode>,
    n: int,
    start: Point2D,
    k: usize,
    f: nat,
    seen: Seq<usize>,
)
    requires
        star_ok(m, n, start),
        k < n,
        seen.no_duplicates(),
        forall|i: int|
            0 <= i < seen.len() ==> #[trigger] seen[i] < n && m[seen[i]].cost > m[k].cost,
        seen.len() + f >= n - 1,
    ensures
        climb(m, m[k].node.point, m[k].node.parent_id, f).last() == start,
        climb(m, m[k].node.point, m[k].node.parent_id, f)[0] == m[k].node.point,
        1 <= climb(m, m[k].node.point, m[k].node.parent_id, f).len() <= n - seen.len(),
    decreases f,
{
    let longer = seen.push(k);
    assert(longer.no_duplicates()) by {
        assert forall|i: int, j: int| 0 <= i < longer.len() && 0 <= j < longer.len() && i
            != j implies longer[i] != longer[j] by {
            if i < seen.len() && j < seen.len() {
                assert(seen[i] != seen[j]);
            } else if i < seen.len() {
                assert(m[seen[i]].cost > m[k].cost);
            } else {
                assert(m[seen[j]].cost > m[k].cost);
            }
        }
    }
    assert forall|i: int| 0 <= i < longer.len() implies #[trigger] longer[i] < n by {
        if i < seen.len() {
            assert(longer[i] == seen[i]);
        }
    }
    lemma_distinct_below(longer, n as nat);
    if k == 0 {
    } else {
        assert(m[k].node.parent_id is Some);
        let p = m[k].node.parent_id->0;
        assert(cost_adds_up(m, k));
        lemma_dist_zero_iff_same(m[k].node.point, m[p].node.point);
        assert(m[p].cost < m[k].cost);
        assert forall|i: int| 0 <= i < longer.len() implies #[trigger] longer[i] < n
            && m[longer[i]].cost > m[p].cost by {
            if i < seen.len() {
                assert(longer[i] == seen[i]);
            }
        }
        let longest = longer.push(p);
        assert(longest.no_duplicates()) by {
            assert forall|i: int, j: int| 0 <= i < longest.len() && 0 <= j < longest.len() && i
                != j implies longest[i] != longest[j] by {
                if i < longer.len() && j < longer.len() {
                    assert(longer[i] != longer[j]);
                } else if i < longer.len() {
                    assert(m[longer[i]].cost > m[p].cost);
                } else {
                    assert(m[longer[j]].cost > m[p].cost);
                }
            }
        }
        assert forall|i: int| 0 <= i < longest.len() implies #[trigger] longest[i] < n by {
            if i < longer.len() {
                assert(longest[i] == longer[i]);
            }
        }
        lemma_distinct_below(longest, n as nat);
        assert(f > 0);
        lemma_climb_with_seen(m, n, start, p, (f - 1) as nat, longer);
        assert(m.contains_key(p));
    }
}

/// In a tree whose costs add up, the way up from any node ends at the
/// root and meets no node twice: it holds no more points than the tree has
/// nodes.
pub proof fn lemma_climb_reaches_root(m: Map<usize, RRTStarNode>, n: int, start: Point2D, k: usize)
    requires
        star_ok(m, n, start),
        k < n,
    ensures
        climb(m, m[k].node.point, m[k].node.parent_id, n as nat).last() == start,
        climb(m, m[k].node.point, m[k].node.parent_id, n as nat)[0] == m[k].node.point,
        1 <= climb(m, m[k].node.point, m[k].node.parent_id, n as nat).len() <= n,
{
    lemma_climb_with_seen(m, n, start, k, n as nat, Seq::empty());
}

/// Every record of a tree lies at a point in range.
pub proof fn lemma_record_in_range(tree: &PathTree<RRTStarNode>, id: usize)
    requires
        tree.well_formed(),
        tree.b_map@.contains_key(id),
    ensures
        point_in_range(tree.b_map@[id].node.point),
{
    let pt = tree.b_map@[id].node.point;
    assert(tree.index.holds(pt, id));
    let i = choose|i: int| 0 <= i < tree.index.entries@.len() && tree.index.entries@[i] == (pt, id);
    assert(point_in_range(tree.index.entries@[i].0));
}

/// What rounds of growth made of a planner, they made of every planner
/// with the same configuration and the same tree.
pub proof fn lemma_searching_same_tree(a: RRTStar, b: RRTStar, first: RRTStar, rounds: nat)
    requires
        a.searching(&first, rounds),
        b.same_config(&a),
        b.node_tree == a.node_tree,
    ensures
        b.searching(&first, rounds),
{
    if rounds > 0 {
        let (mid, target) = choose|mid: RRTStar, target: Point2D| #[trigger]
            mid.grow_gives(&a, target) && mid.rrt.can_sample(target) && mid.searching(
                &first,
                (rounds - 1) as nat,
            ) && (mid.search_until_max || !mid.near_goal(target));
        assert(mid.grow_gives(&b, target));
    }
}

/// After planning the node 0 is the root: it has no parent, lies at the
/// start and costs nothing.
pub proof fn lemma_planned_root(planner: RRTStar, before: RRTStar, result: Option<Path2D>)
    requires
        planner.planned(&before, result),
    ensures
        planner.records().contains_key(0),
        planner.records()[0].node.id == 0,
        planner.records()[0].node.parent_id is None,
        planner.records()[0].node.point == planner.rrt.start,
        planner.records()[0].cost == 0,
{
    assert(planner.records().contains_key(0));
}

/// After planning the cost of every node but the root is the cost of its
/// parent plus the distance between the two, and so more than the cost of
/// its parent.
pub proof fn lemma_planned_costs_add_up(
    planner: RRTStar,
    before: RRTStar,
    result: Option<Path2D>,
    k: usize,
)
    requires
        planner.planned(&before, result),
        1 <= k < planner.size(),
    ensures
        planner.records()[k].node.parent_id matches Some(p) && p < planner.size()
            && planner.records()[k].cost == planner.records()[p].cost + dist(
            planner.records()[k].node.point,
            planner.records()[p].node.point,
        ) && planner.records()[p].cost < planner.records()[k].cost,
{
    let m = planner.records();
    assert(cost_adds_up(m, k));
    assert(m[k].node.parent_id is Some);
    let p = m[k].node.parent_id->0;
    lemma_dist_zero_iff_same(m[k].node.point, m[p].node.point);
}

/// After planning the way up from every node ends at the root and meets
/// no node twice: it holds no more points than the tree has nodes.
pub proof fn lemma_planned_way_up(
    planner: RRTStar,
    before: RRTStar,
    result: Option<Path2D>,
    k: usize,
)
    requires
        planner.planned(&before, result),
        k < planner.size(),
    ensures
        climb(
            planner.records(),
            planner.records()[k].node.point,
            planner.records()[k].node.parent_id,
            planner.size() as nat,
        ).last() == planner.rrt.start,
        climb(
            planner.records(),
            planner.records()[k].node.point,
            planner.records()[k].node.parent_id,
            planner.size() as nat,
        ).len() <= planner.size(),
{
    lemma_climb_reaches_root(planner.records(), planner.size(), planner.rrt.start, k);
}

/// The edge steered from `from` toward `to` ends on `to`.
pub open spec fn reaches(cfg: &RRT, from: Point2D, to: Point2D) -> bool {
    steer_path(from, to, cfg.expand_dis as int, cfg.path_resolution as int).last() == to
}

/// The node at `pt` can be reached from a new node at `new_pt`: it lies in
/// no obstacle, and the straight line between the two is barred by none.
pub open spec fn passable(cfg: &RRT, new_pt: Point2D, pt: Point2D) -> bool {
    &&& !hits_any(cfg.obstacles@, pt)
    &&& !blocked_by_any(cfg.obstacles@, pt, new_pt)
}

/// Among the records `m` the way to the node `idx` would be shorter
/// through the node `new_id`, by an edge that can be taken.
pub open spec fn improves(
    cfg: &RRT,
    m: Map<usize, RRTStarNode>,
    new_id: usize,
    idx: usize,
) -> bool {
    &&& reaches(cfg, m[new_id].node.point, m[idx].node.point)
    &&& passable(cfg, m[new_id].node.point, m[idx].node.point)
    &&& m[idx].cost > m[new_id].cost + dist(m[idx].node.point, m[new_id].node.point)
}

/// The records `after` are what the turn of the neighbour `idx` makes of
/// the records `before`, a tree of `n` nodes. Where the way to `idx` would
/// be shorter through the node `new_id`, the node `idx` gets `new_id` as
/// its parent and the edge steered from there, every other node keeps its
/// parent and its edge, and the costs add up again. Else nothing changes.
pub open spec fn rewire_step(
    cfg: &RRT,
    n: int,
    before: Map<usize, RRTStarNode>,
    after: Map<usize, RRTStarNode>,
    new_id: usize,
    idx: usize,
) -> bool {
    if improves(cfg, before, new_id, idx) {
        &&& star_ok(after, n, cfg.start)
        &&& forall|k: usize|
            k < n && k != idx ==> (#[trigger] after[k]).node.same_as(&before[k].node)
        &&& after[idx].node.id == idx
        &&& after[idx].node.point == before[idx].node.point
        &&& after[idx].node.parent_id == Some(new_id)
        &&& after[idx].node.path@ == steer_path(
            before[new_id].node.point,
            before[idx].node.point,
            cfg.expand_dis as int,
            cfg.path_resolution as int,
        )
    } else {
        after == before
    }
}

/// The records `steps` are the states of a tree of `n` nodes while the
/// neighbours `near_inds` take their turns, one after the other.
pub open spec fn is_rewire_trace(
    cfg: &RRT,
    n: int,
    steps: Seq<Map<usize, RRTStarNode>>,
    new_id: usize,
    near_inds: Seq<usize>,
) -> bool {
    &&& steps.len() == near_inds.len() + 1
    &&& forall|j: int|
        0 <= j < near_inds.len() ==> rewire_step(
            cfg,
            n,
            #[trigger] steps[j],
            steps[j + 1],
            new_id,
            near_inds[j],
        )
}

/// The records `after` are what rewiring the neighbours `near_inds`
/// through the node `new_id` makes of the records `before`.
pub open spec fn rewired(
    cfg: &RRT,
    n: int,
    before: Map<usize, RRTStarNode>,
    after: Map<usize, RRTStarNode>,
    new_id: usize,
    near_inds: Seq<usize>,
) -> bool {
    exists|steps: Seq<Map<usize, RRTStarNode>>| #[trigger]
        is_rewire_trace(cfg, n, steps, new_id, near_inds) && steps[0] == before && steps.last()
            == after
}

/// The optimising tree planner: a tree planner's configuration, two more
/// parameters, and a tree of nodes with costs.
pub struct RRTStar<'a> {
    pub rrt: RRT<'a>,
    /// Scale of the radius within which a new node looks for neighbours.
    pub connect_circle_dist: i64,
    /// Whether every round is used even after the goal came within reach.
    pub search_until_max: bool,
    /// How many of the coordinates' units make one unit of length. A range
    /// query compares a squared distance with a radius times this number,
    /// so that a scene finds the same neighbours in a finer unit.
    pub unit: i64,
    pub node_tree: PathTree<RRTStarNode>,
}

impl<'a> RRTStar<'a> {
    /// The records of the tree.
    pub open spec fn records(&self) -> Map<usize, RRTStarNode> {
        self.node_tree.b_map@
    }

    /// The number of nodes in the tree.
    pub open spec fn size(&self) -> int {
        self.node_tree.index.entries@.len() as int
    }

    /// The numbers of the configuration are in range, and the unit of
    /// length is one of the coordinates' units at least.
    pub open spec fn numbers_ok(&self) -> bool {
        &&& self.rrt.numbers_ok()
        &&& -2 * COORD_LIMIT <= self.connect_circle_dist <= 2 * COORD_LIMIT
        &&& self.unit >= 1
    }

    /// The configuration is in range: its numbers and its obstacles.
    pub open spec fn config_ok(&self) -> bool {
        self.numbers_ok() && obstacles_well_formed(self.rrt.obstacles@)
    }

    /// Whether the numbers of the configuration are in range.
    pub fn numbers_in_range(&self) -> (r: bool)
        ensures
            r == self.numbers_ok(),
    {
        self.rrt.numbers_in_range() && -2 * COORD_LIMIT <= self.connect_circle_dist
            && self.connect_circle_dist <= 2 * COORD_LIMIT && self.unit >= 1
    }

    /// The configuration of `self` is that of `other`.
    pub open spec fn same_config(&self, other: &Self) -> bool {
        &&& self.rrt.same_config(&other.rrt)
        &&& self.connect_circle_dist == other.connect_circle_dist
        &&& self.search_until_max == other.search_until_max
        &&& self.unit == other.unit
    }

    /// Every node but the root stores an edge that was steered from its
    /// parent with the planner's expansion distance and path resolution.
    pub open spec fn edges_steered(&self) -> bool {
        star_steered(
            self.records(),
            self.size(),
            self.rrt.expand_dis as int,
            self.rrt.path_resolution as int,
        )
    }

    /// Every node but the root lies in no obstacle and is joined to its
    /// parent by a line that was found free of every obstacle.
    pub open spec fn edges_clear(&self) -> bool {
        star_clear(self.records(), self.size(), self.rrt.obstacles@)
    }

    /// The index and the map of the tree agree, and the records form a
    /// tree rooted at the start in which every cost adds up.
    pub open spec fn tree_ok(&self) -> bool {
        &&& self.node_tree.well_formed()
        &&& star_ok(self.records(), self.size(), self.rrt.start)
    }

    /// A planner with an empty tree and a generator seeded by the
    /// operating system, or with zero where the system gives no entropy.
    /// Lengths are counted in the unit of the coordinates.
    pub fn new(
        start: Point2D,
        goal: Point2D,
        obstacles: Vec<&'a dyn Collision>,
        expand_dis: i64,
        path_resolution: i64,
        goal_sample_rate: u32,
        max_iter: u32,
        explore_area: RectangleBounds,
        connect_circle_dist: i64,
        search_until_max: bool,
    ) -> (r: Self)
        ensures
            r.rrt.start == start,
            r.rrt.goal == goal,
            r.rrt.obstacles@ == obstacles@,
            r.rrt.expand_dis == expand_dis,
            r.rrt.path_resolution == path_resolution,
            r.rrt.goal_sample_rate == goal_sample_rate,
            r.rrt.max_iter == max_iter,
            r.rrt.explore_area == explore_area,
            r.rrt.node_list@.len() == 0,
            r.connect_circle_dist == connect_circle_dist,
            r.search_until_max == search_until_max,
            r.unit == 1,
            r.node_tree.well_formed(),
            r.size() == 0,
            r.records() == Map::<usize, RRTStarNode>::empty(),
    {
        let rrt = RRT::new(
            start,
            goal,
            obstacles,
            expand_dis,
            path_resolution,
            goal_sample_rate,
            max_iter,
            explore_area,
        );
        RRTStar { rrt, connect_circle_dist, search_until_max, unit: 1, node_tree: PathTree::new() }
    }

    /// A planner with an empty tree and a generator seeded with `seed`.
    /// Lengths are counted in the unit of the coordinates.
    pub fn with_seed(
        start: Point2D,
        goal: Point2D,
        obstacles: Vec<&'a dyn Collision>,
        expand_dis: i64,
        path_resolution: i64,
        goal_sample_rate: u32,
        max_iter: u32,
        explore_area: RectangleBounds,
        connect_circle_dist: i64,
        search_until_max: bool,
        seed: u64,
    ) -> (r: Self)
        ensures
            r.rrt.start == start,
            r.rrt.goal == goal,
            r.rrt.obstacles@ == obstacles@,
            r.rrt.expand_dis == expand_dis,
            r.rrt.path_resolution == path_resolution,
            r.rrt.goal_sample_rate == goal_sample_rate,
            r.rrt.max_iter == max_iter,
            r.rrt.explore_area == explore_area,
            r.rrt.node_list@.len() == 0,
            r.connect_circle_dist == connect_circle_dist,
            r.search_until_max == search_until_max,
            r.unit == 1,
            r.node_tree.well_formed(),
            r.size() == 0,
            r.records() == Map::<usize, RRTStarNode>::empty(),
    {
        let rrt = RRT::with_seed(
            start,
            goal,
            obstacles,
            expand_dis,
            path_resolution,
            goal_sample_rate,
            max_iter,
            explore_area,
            seed,
        );
        RRTStar { rrt, connect_circle_dist, search_until_max, unit: 1, node_tree: PathTree::new() }
    }

    /// A sample to grow the tree toward, with no cost: the goal where a
    /// draw below 100 exceeds the goal sample rate, else a point drawn from
    /// the area.
    pub fn get_random_node(&mut self, end: &RRTNode) -> (r: RRTStarNode)
        requires
            old(self).rrt.explore_area.min_pt.0 < old(self).rrt.explore_area.max_pt.0,
            old(self).rrt.explore_area.min_pt.1 < old(self).rrt.explore_area.max_pt.1,
        ensures
            final(self).same_config(old(self)),
            final(self).node_tree == old(self).node_tree,
            final(self).rrt.node_list == old(self).rrt.node_list,
            r.cost == 0,
            r.node.id == 0,
            r.node.parent_id is None,
            r.node.path@.len() == 0,
            is_sample(
                old(self).rrt.explore_area,
                old(self).rrt.goal_sample_rate,
                end.point,
                r.node.point,
            ),
            r.node.point == end.point || old(self).rrt.explore_area.holds_sample(r.node.point),
            old(self).rrt.goal_sample_rate >= 99 ==> old(self).rrt.explore_area.holds_sample(
                r.node.point,
            ),
    {
        RRTStarNode { node: self.rrt.get_random_node(end), cost: 0 }
    }

    /// The cost of `to_node` were it reached from `from_node`: the cost
    /// of `from_node` plus the distance between the two.
    pub fn calc_new_cost(&self, from_node: &RRTStarNode, to_node: &RRTStarNode) -> (r: u128)
        requires
            point_in_range(from_node.node.point),
            point_in_range(to_node.node.point),
        ensures
            r == from_node.cost + dist(to_node.node.point, from_node.node.point),
    {
        from_node.cost as u128 + to_node.distance_between(from_node) as u128
    }

    /// The edge steered from the node `near` toward `target`.
    pub open spec fn edge_from(&self, near: usize, target: Point2D) -> Seq<Point2D> {
        steer_path(
            self.records()[near].node.point,
            target,
            self.rrt.expand_dis as int,
            self.rrt.path_resolution as int,
        )
    }

    /// The node `near` can be the parent of a node toward `target`: the end
    /// of the edge steered from it lies in no obstacle, and the straight
    /// line from it to that end is barred by none.
    pub open spec fn offers(&self, near: usize, target: Point2D) -> bool {
        let end = self.edge_from(near, target).last();
        &&& !hits_any(self.rrt.obstacles@, end)
        &&& !blocked_by_any(self.rrt.obstacles@, self.records()[near].node.point, end)
    }

    /// The cost of the end of the edge steered from `near` toward `target`.
    pub open spec fn offer_cost(&self, near: usize, target: Point2D) -> int {
        self.records()[near].cost + dist(
            self.edge_from(near, target).last(),
            self.records()[near].node.point,
        )
    }

    /// The place `k` of `near_inds` holds the first of the cheapest
    /// parents on offer.
    pub open spec fn is_best_offer(&self, near_inds: Seq<usize>, target: Point2D, k: int) -> bool {
        &&& 0 <= k < near_inds.len()
        &&& self.offers(near_inds[k], target)
        &&& forall|j: int|
            0 <= j < near_inds.len() && self.offers(#[trigger] near_inds[j], target)
                ==> self.offer_cost(near_inds[k], target) <= self.offer_cost(near_inds[j], target)
        &&& forall|j: int|
            0 <= j < k && self.offers(#[trigger] near_inds[j], target) ==> self.offer_cost(
                near_inds[k],
                target,
            ) < self.offer_cost(near_inds[j], target)
    }

    /// One of the nodes `near_inds` can be the parent of a node toward
    /// `target`.
    pub open spec fn has_offer(&self, near_inds: Seq<usize>, target: Point2D) -> bool {
        exists|k: int| self.is_best_offer(near_inds, target, k)
    }

    /// The place in `near_inds` of the first of the cheapest parents on
    /// offer.
    pub open spec fn best_offer(&self, near_inds: Seq<usize>, target: Point2D) -> int {
        choose|k: int| self.is_best_offer(near_inds, target, k)
    }

    /// There is one first cheapest parent on offer at most.
    pub proof fn lemma_best_offer_is(&self, near_inds: Seq<usize>, target: Point2D, k: int)
        requires
            self.is_best_offer(near_inds, target, k),
        ensures
            self.has_offer(near_inds, target),
            self.best_offer(near_inds, target) == k,
    {
        let other = self.best_offer(near_inds, target);
        assert(self.is_best_offer(near_inds, target, other));
        if other < k {
            assert(self.offers(near_inds[other], target));
        } else if k < other {
            assert(self.offers(near_inds[k], target));
        }
    }

    /// Whether the straight line from the parent of `node` to `node` is
    /// barred by an obstacle. A node without a parent is not barred.
    pub fn is_collision_parent_rrt(&self, node: &RRTNode) -> (r: bool)
        requires
            obstacles_well_formed(self.rrt.obstacles@),
            self.node_tree.well_formed(),
            point_in_range(node.point),
            node.parent_id matches Some(p) ==> self.records().contains_key(p),
        ensures
            r == match node.parent_id {
                Some(p) => blocked_by_any(
                    self.rrt.obstacles@,
                    self.records()[p].node.point,
                    node.point,
                ),
                None => false,
            },
    {
        match node.parent_id {
            None => false,
            Some(parent_id) => {
                let parent_node = self.node_tree.get(parent_id).unwrap();
                proof {
                    lemma_record_in_range(&self.node_tree, parent_id);
                }
                let from = parent_node.node.point;
                self.is_collision_segment(&from, &node.point)
            },
        }
    }

    /// Whether the straight line from the parent of `node` to `node` is
    /// barred by an obstacle. A node without a parent is not barred.
    pub fn is_collision_parent(&self, node: &RRTStarNode) -> (r: bool)
        requires
            obstacles_well_formed(self.rrt.obstacles@),
            self.node_tree.well_formed(),
            point_in_range(node.node.point),
            node.node.parent_id matches Some(p) ==> self.records().contains_key(p),
        ensures
            r == match node.node.parent_id {
                Some(p) => blocked_by_any(
                    self.rrt.obstacles@,
                    self.records()[p].node.point,
                    node.node.point,
                ),
                None => false,
            },
    {
        self.is_collision_parent_rrt(&node.node)
    }

    /// The cheapest way to reach `new_node` from one of the nodes
    /// `near_inds`: an edge is steered from each of them toward it, those
    /// that end in an obstacle or are barred by one are left out, and of the
    /// others the first of least cost makes the node that is returned,
    /// identified by `node_id`. There is none where every edge is left out.
    pub fn choose_parent(
        &self,
        new_node: &RRTStarNode,
        near_inds: &Vec<usize>,
        node_id: usize,
    ) -> (r: Option<RRTStarNode>)
        requires
            self.config_ok(),
            self.node_tree.well_formed(),
            star_shape(self.records(), self.size(), self.rrt.start),
            self.size() <= u32::MAX,
            point_in_range(new_node.node.point),
            forall|k: int|
                0 <= k < near_inds@.len() ==> self.records().contains_key(#[trigger] near_inds@[k]),
        ensures
            r is None <==> forall|j: int|
                0 <= j < near_inds@.len() ==> !self.offers(
                    #[trigger] near_inds@[j],
                    new_node.node.point,
                ),
            r is Some <==> self.has_offer(near_inds@, new_node.node.point),
            r matches Some(node) ==> {
                let k = self.best_offer(near_inds@, new_node.node.point);
                &&& self.is_best_offer(near_inds@, new_node.node.point, k)
                &&& node.node.id == node_id
                &&& node.node.parent_id == Some(near_inds@[k])
                &&& node.node.path@ == self.edge_from(near_inds@[k], new_node.node.point)
                &&& node.node.point == node.node.path@.last()
                &&& node.cost == self.offer_cost(near_inds@[k], new_node.node.point)
                &&& point_in_range(node.node.point)
            },
    {
        let target = new_node.node.point;
        let mut best: Option<RRTStarNode> = None;
        let ghost mut best_k: int = 0;
        let mut i: usize = 0;
        while i < near_inds.len()
            invariant
                i <= near_inds.len(),
                self.config_ok(),
                self.node_tree.well_formed(),
                star_shape(self.records(), self.size(), self.rrt.start),
                self.size() <= u32::MAX,
                target == new_node.node.point,
                point_in_range(target),
                forall|k: int|
                    0 <= k < near_inds@.len() ==> self.records().contains_key(
                        #[trigger] near_inds@[k],
                    ),
                best is None ==> forall|j: int|
                    0 <= j < i ==> !self.offers(#[trigger] near_inds@[j], target),
                best matches Some(node) ==> {
                    &&& 0 <= best_k < i
                    &&& self.offers(near_inds@[best_k], target)
                    &&& forall|j: int|
                        0 <= j < i && self.offers(#[trigger] near_inds@[j], target)
                            ==> self.offer_cost(near_inds@[best_k], target) <= self.offer_cost(
                            near_inds@[j],
                            target,
                        )
                    &&& forall|j: int|
                        0 <= j < best_k && self.offers(#[trigger] near_inds@[j], target)
                            ==> self.offer_cost(near_inds@[best_k], target) < self.offer_cost(
                            near_inds@[j],
                            target,
                        )
                    &&& node.node.id == node_id
                    &&& node.node.parent_id == Some(near_inds@[best_k])
                    &&& node.node.path@ == self.edge_from(near_inds@[best_k], target)
                    &&& node.node.point == node.node.path@.last()
                    &&& node.cost == self.offer_cost(near_inds@[best_k], target)
                    &&& point_in_range(node.node.point)
                },
            decreases near_inds.len() - i,
        {
            let idx = near_inds[i];
            let near_node = self.node_tree.get(idx).unwrap();
            proof {
                lemma_record_in_range(&self.node_tree, idx);
            }
            let t_node = self.rrt.steer(
                &near_node.node,
                &new_node.node,
                self.rrt.expand_dis,
                node_id,
            );
            assert(t_node.parent_id == Some(idx));
            let edge_collision_occured = self.is_collision_parent_rrt(&t_node);
            if !self.is_collision(&t_node.point) && !edge_collision_occured {
                let from = near_node.node.point;
                let d: u64 = crate::math::distance(&t_node.point, &from);
                assert(near_node.cost + d <= u64::MAX) by (nonlinear_arith)
                    requires
                        near_node.cost <= (self.size() - 1) * (DIST_LIMIT - 1),
                        d <= DIST_LIMIT - 1,
                        1 <= self.size() <= 4294967295,
                        DIST_LIMIT == 4294967296,
                ;
                let cost: u64 = near_node.cost + d;
                let better = match &best {
                    Some(b) => cost < b.cost,
                    None => true,
                };
                if better {
                    best = Some(RRTStarNode { node: t_node, cost });
                    proof {
                        best_k = i as int;
                    }
                }
            }
            i += 1;
        }
        proof {
            if best is Some {
                assert(self.is_best_offer(near_inds@, target, best_k));
                self.lemma_best_offer_is(near_inds@, target, best_k);
            } else {
                if self.has_offer(near_inds@, target) {
                    let k = choose|k: int| self.is_best_offer(near_inds@, target, k);
                    assert(self.offers(near_inds@[k], target));
                }
            }
        }
        best
    }

    /// Puts `record` in the place of the record with its identifier, which
    /// lies at the same point.
    fn replace_record(&mut self, record: RRTStarNode)
        requires
            old(self).node_tree.well_formed(),
            old(self).records().contains_key(record.node.id),
            old(self).records()[record.node.id].node.point == record.node.point,
        ensures
            final(self).node_tree.well_formed(),
            final(self).rrt == old(self).rrt,
            final(self).connect_circle_dist == old(self).connect_circle_dist,
            final(self).search_until_max == old(self).search_until_max,
            final(self).unit == old(self).unit,
            final(self).node_tree.index.entries@ == old(self).node_tree.index.entries@,
            final(self).records() == old(self).records().insert(record.node.id, record),
    {
        let ghost id = record.node.id;
        let ghost pt = record.node.point;
        let ghost entries = self.node_tree.index.entries@;
        proof {
            lemma_record_in_range(&self.node_tree, id);
            assert(self.node_tree.index.holds(pt, id));
            let j = choose|j: int| 0 <= j < entries.len() && entries[j] == (pt, id);
            assert(!crate::tree::taken_by_other(entries, pt, id)) by {
                if crate::tree::taken_by_other(entries, pt, id) {
                    let i = choose|i: int|
                        0 <= i < entries.len() && (#[trigger] entries[i]).0 == pt && entries[i].1
                            != id;
                    assert(entries[i].0 == entries[j].0);
                }
            }
            assert(crate::tree::carries(entries, id)) by {
                assert(entries[j].1 == id);
            }
        }
        let res = self.node_tree.set(record);
        assert(res is Ok);
    }

    /// Brings the costs below the node `node_id` up to date after its own
    /// cost was lowered by `delta`: the cost of every node that descends
    /// from it, through however many parents, is lowered by as much.
    fn propagate_cost_to_leaves(&mut self, node_id: usize, Ghost(delta): Ghost<int>)
        requires
            old(self).node_tree.well_formed(),
            settling(
                old(self).records(),
                old(self).size(),
                old(self).rrt.start,
                node_id,
                delta,
                seq![node_id],
                seq![node_id],
                None,
            ),
        ensures
            final(self).tree_ok(),
            final(self).rrt == old(self).rrt,
            final(self).connect_circle_dist == old(self).connect_circle_dist,
            final(self).search_until_max == old(self).search_until_max,
            final(self).unit == old(self).unit,
            final(self).node_tree.index.entries@ == old(self).node_tree.index.entries@,
            forall|k: usize|
                k < old(self).size() ==> (#[trigger] final(self).records()[k]).node.same_as(
                    &old(self).records()[k].node,
                ) && final(self).records()[k].cost <= old(self).records()[k].cost,
            forall|k: usize|
                k < old(self).size() && (#[trigger] old(self).records()[k]).cost <= old(
                    self,
                ).records()[node_id].cost ==> final(self).records()[k].cost == old(
                    self,
                ).records()[k].cost,
            old(self).edges_steered() ==> final(self).edges_steered(),
            old(self).edges_clear() ==> final(self).edges_clear(),
    {
        let ghost n = self.size();
        let ghost start = self.rrt.start;
        let ghost first = self.records();
        let mut stack: Vec<usize> = Vec::new();
        stack.push(node_id);
        let ghost mut lowered: Seq<usize> = seq![node_id];
        assert(stack@ == seq![node_id]);
        while stack.len() > 0
            invariant
                self.node_tree.well_formed(),
                self.rrt == old(self).rrt,
                self.connect_circle_dist == old(self).connect_circle_dist,
                self.search_until_max == old(self).search_until_max,
                self.unit == old(self).unit,
                self.node_tree.index.entries@ == old(self).node_tree.index.entries@,
                self.size() == n,
                n == old(self).size(),
                start == self.rrt.start,
                first == old(self).records(),
                settling(self.records(), n, start, node_id, delta, lowered, stack@, None),
                forall|k: usize|
                    k < n ==> (#[trigger] self.records()[k]).node.same_as(&first[k].node)
                        && self.records()[k].cost <= first[k].cost,
                self.records()[node_id].cost == first[node_id].cost,
                forall|k: usize|
                    k < n && (#[trigger] first[k]).cost <= first[node_id].cost
                        ==> self.records()[k].cost == first[k].cost,
            decreases n - lowered.len(), stack@.len(),
        {
            proof {
                lemma_distinct_below(lowered, n as nat);
            }
            let ghost before_stack = stack@;
            let ghost before_lowered = lowered;
            let x = stack.pop().unwrap();
            proof {
                assert(before_stack == stack@.push(x));
                assert(before_stack.last() == x);
                assert(!stack@.contains(x)) by {
                    if stack@.contains(x) {
                        let i = choose|i: int| 0 <= i < stack@.len() && stack@[i] == x;
                        assert(before_stack[i] == x && before_stack[before_stack.len() - 1] == x);
                    }
                }
                assert forall|i: int| 0 <= i < stack@.len() implies lowered.contains(
                    #[trigger] stack@[i],
                ) by {
                    assert(before_stack[i] == stack@[i]);
                }
                assert forall|p: usize, k: usize|
                    awaits(before_stack, None, p, k) == awaits(stack@, Some((x, 0int)), p, k) by {
                    if before_stack.contains(p) {
                        let i = choose|i: int| 0 <= i < before_stack.len() && before_stack[i] == p;
                        if i < stack@.len() {
                            assert(stack@[i] == p);
                        }
                    }
                    if stack@.contains(p) {
                        let i = choose|i: int| 0 <= i < stack@.len() && stack@[i] == p;
                        assert(before_stack[i] == p);
                    }
                }
                assert(settling(
                    self.records(),
                    n,
                    start,
                    node_id,
                    delta,
                    lowered,
                    stack@,
                    Some((x, 0int)),
                ));
            }
            let total = self.node_tree.len();
            let mut idx: usize = 0;
            while idx < total
                invariant
                    idx <= total,
                    total == n,
                    self.node_tree.well_formed(),
                    self.rrt == old(self).rrt,
                    self.connect_circle_dist == old(self).connect_circle_dist,
                    self.search_until_max == old(self).search_until_max,
                    self.unit == old(self).unit,
                    self.node_tree.index.entries@ == old(self).node_tree.index.entries@,
                    self.size() == n,
                    start == self.rrt.start,
                    settling(
                        self.records(),
                        n,
                        start,
                        node_id,
                        delta,
                        lowered,
                        stack@,
                        Some((x, idx as int)),
                    ),
                    forall|k: usize|
                        k < n ==> (#[trigger] self.records()[k]).node.same_as(&first[k].node)
                            && self.records()[k].cost <= first[k].cost,
                    self.records()[node_id].cost == first[node_id].cost,
                    forall|k: usize|
                        k < n && (#[trigger] first[k]).cost <= first[node_id].cost
                            ==> self.records()[k].cost == first[k].cost,
                    lowered.len() >= before_lowered.len(),
                    lowered.len() == before_lowered.len() ==> stack@.len() + 1
                        == before_stack.len(),
                decreases total - idx,
            {
                let ghost m = self.records();
                let ghost stack_now = stack@;
                let ghost lowered_now = lowered;
                let record = self.node_tree.get(idx).unwrap();
                let is_child = match record.node.parent_id {
                    Some(p) => p == x,
                    None => false,
                };
                if is_child {
                    let parent = self.node_tree.get(x).unwrap();
                    proof {
                        lemma_record_in_range(&self.node_tree, x);
                        lemma_record_in_range(&self.node_tree, idx);
                        assert(m[idx].node.parent_id == Some(x));
                        assert(idx >= 1);
                        assert(!lowered.contains(idx));
                        assert(cost_is_stale(m, idx, delta));
                    }
                    let d: u64 = crate::math::distance(&record.node.point, &parent.node.point);
                    let new_cost: u64 = parent.cost + d;
                    let nnode = RRTStarNode { cost: new_cost, node: record.node.clone() };
                    self.replace_record(nnode);
                    stack.push(idx);
                    proof {
                        lowered = lowered.push(idx);
                        let m2 = self.records();
                        assert(m2.dom() =~= m.dom());
                        lemma_lowered_child(
                            m,
                            m2,
                            n,
                            start,
                            node_id,
                            delta,
                            lowered_now,
                            stack_now,
                            x,
                            idx,
                        );
                    }
                } else {
                    proof {
                        assert forall|p: usize, k: usize|
                            k != idx || p != x implies awaits(stack@, Some((x, idx as int)), p, k)
                            == awaits(stack@, Some((x, idx as int + 1)), p, k) by {}
                        assert(settling(
                            self.records(),
                            n,
                            start,
                            node_id,
                            delta,
                            lowered,
                            stack@,
                            Some((x, idx as int + 1)),
                        ));
                    }
                }
                idx += 1;
            }
            proof {
                assert forall|p: usize, k: usize| k < n implies awaits(
                    stack@,
                    Some((x, n)),
                    p,
                    k,
                ) == awaits(stack@, None, p, k) by {}
                assert(settling(self.records(), n, start, node_id, delta, lowered, stack@, None));
                lemma_distinct_below(lowered, n as nat);
            }
        }
        proof {
            let m = self.records();
            assert forall|k: usize| 1 <= k < n implies #[trigger] cost_adds_up(m, k) by {
                let p = parent_place(m[k].node.parent_id) as usize;
                assert(!awaits(stack@, None, p, k));
            }
            if old(self).edges_steered() {
                assert forall|k: usize| 1 <= k < n implies 0 <= parent_place(
                    (#[trigger] first[k]).node.parent_id,
                ) < n by {
                    assert(m[k].node.same_as(&first[k].node));
                    assert(m[k].node.parent_id is Some);
                }
                lemma_steered_kept(
                    first,
                    m,
                    n,
                    n,
                    0,
                    self.rrt.expand_dis as int,
                    self.rrt.path_resolution as int,
                );
            }
            if old(self).edges_clear() {
                assert forall|k: usize| 1 <= k < n implies 0 <= parent_place(
                    (#[trigger] first[k]).node.parent_id,
                ) < n by {
                    assert(m[k].node.same_as(&first[k].node));
                    assert(m[k].node.parent_id is Some);
                }
                lemma_clear_kept(first, m, n, n, 0, self.rrt.obstacles@);
            }
        }
    }

    /// Rewires the nodes `near_inds` through `new_node`, a node of the
    /// tree: each of them, in turn, whose way from the root is shorter
    /// through `new_node`, by an edge that ends on it and that no obstacle
    /// bars, gets `new_node` as its parent, that edge and the lower cost;
    /// and the cost of every node that descends from it is lowered by as
    /// much. Identifiers and points stay. Afterwards no way to one of the
    /// nodes `near_inds` would be shorter through `new_node`.
    #[verifier::rlimit(50)]
    pub fn rewire(&mut self, new_node: &RRTStarNode, near_inds: &Vec<usize>)
        requires
            old(self).config_ok(),
            old(self).tree_ok(),
            new_node.node.id < old(self).size(),
            old(self).records()[new_node.node.id].same_as(new_node),
            forall|j: int|
                0 <= j < near_inds@.len() ==> #[trigger] near_inds@[j] < old(self).size(),
        ensures
            final(self).tree_ok(),
            final(self).same_config(old(self)),
            final(self).rrt == old(self).rrt,
            final(self).node_tree.index.entries@ == old(self).node_tree.index.entries@,
            final(self).records()[new_node.node.id].same_as(new_node),
            forall|k: usize|
                k < old(self).size() ==> {
                    &&& (#[trigger] final(self).records()[k]).node.point == old(
                        self,
                    ).records()[k].node.point
                    &&& final(self).records()[k].cost <= old(self).records()[k].cost
                    &&& final(self).records()[k].node.same_as(&old(self).records()[k].node) || {
                        &&& near_inds@.contains(k)
                        &&& final(self).records()[k].node.parent_id == Some(new_node.node.id)
                        &&& final(self).records()[k].node.path@ == steer_path(
                            new_node.node.point,
                            old(self).records()[k].node.point,
                            old(self).rrt.expand_dis as int,
                            old(self).rrt.path_resolution as int,
                        )
                        &&& passable(
                            &old(self).rrt,
                            new_node.node.point,
                            old(self).records()[k].node.point,
                        )
                    }
                },
            forall|j: int|
                0 <= j < near_inds@.len() ==> !improves(
                    &old(self).rrt,
                    final(self).records(),
                    new_node.node.id,
                    #[trigger] near_inds@[j],
                ),
            rewired(
                &old(self).rrt,
                old(self).size(),
                old(self).records(),
                final(self).records(),
                new_node.node.id,
                near_inds@,
            ),
            old(self).edges_steered() ==> final(self).edges_steered(),
            old(self).edges_clear() ==> final(self).edges_clear(),
    {
        let ghost n = self.size();
        let ghost first = self.records();
        let ghost mut trace: Seq<Map<usize, RRTStarNode>> = seq![first];
        let new_id = new_node.node.id;
        let new_pt = new_node.node.point;
        proof {
            lemma_record_in_range(&self.node_tree, new_id);
        }
        let mut i: usize = 0;
        while i < near_inds.len()
            invariant
                i <= near_inds.len(),
                self.config_ok(),
                self.tree_ok(),
                self.same_config(old(self)),
                self.rrt == old(self).rrt,
                self.node_tree.index.entries@ == old(self).node_tree.index.entries@,
                self.size() == n,
                n == old(self).size(),
                first == old(self).records(),
                trace.len() == i + 1,
                trace[0] == first,
                trace.last() == self.records(),
                forall|j: int|
                    0 <= j < i ==> rewire_step(
                        &old(self).rrt,
                        n,
                        #[trigger] trace[j],
                        trace[j + 1],
                        new_id,
                        near_inds@[j],
                    ),
                new_id == new_node.node.id,
                new_pt == new_node.node.point,
                new_id < n,
                point_in_range(new_pt),
                self.records()[new_id].same_as(new_node),
                forall|j: int| 0 <= j < near_inds@.len() ==> #[trigger] near_inds@[j] < n,
                forall|k: usize|
                    k < n ==> {
                        &&& (#[trigger] self.records()[k]).node.point == first[k].node.point
                        &&& self.records()[k].cost <= first[k].cost
                        &&& self.records()[k].node.same_as(&first[k].node) || {
                            &&& near_inds@.contains(k)
                            &&& self.records()[k].node.parent_id == Some(new_id)
                            &&& self.records()[k].node.path@ == steer_path(
                                new_pt,
                                first[k].node.point,
                                self.rrt.expand_dis as int,
                                self.rrt.path_resolution as int,
                            )
                            &&& passable(&old(self).rrt, new_pt, first[k].node.point)
                        }
                    },
                forall|j: int|
                    0 <= j < i ==> !improves(
                        &old(self).rrt,
                        self.records(),
                        new_id,
                        #[trigger] near_inds@[j],
                    ),
                old(self).edges_steered() ==> self.edges_steered(),
                old(self).edges_clear() ==> self.edges_clear(),
            decreases near_inds.len() - i,
        {
            let idx = near_inds[i];
            let ghost m = self.records();
            assert(near_inds@[i as int] < n);
            let near_node = self.node_tree.get(idx).unwrap();
            proof {
                lemma_record_in_range(&self.node_tree, idx);
            }
            let near_pt = near_node.node.point;
            let near_cost = near_node.cost;
            let edge_node = self.rrt.steer(
                &new_node.node,
                &near_node.node,
                self.rrt.expand_dis,
                0,
            );
            let edge_cost: u128 = self.calc_new_cost(new_node, near_node);
            let improved = near_cost as u128 > edge_cost;
            let edge_collide = self.is_collision_segment(&edge_node.point, &new_pt);
            let no_collision = !self.is_collision(&edge_node.point) && !edge_collide;
            let reached = edge_node.point.0 == near_pt.0 && edge_node.point.1 == near_pt.1;
            if reached && no_collision && improved {
                let nnode = RRTStarNode {
                    cost: edge_cost as u64,
                    node: RRTNode {
                        id: idx,
                        parent_id: edge_node.parent_id,
                        point: near_pt,
                        path: edge_node.path,
                    },
                };
                let ghost delta = near_cost - edge_cost;
                let ghost nn = nnode;
                self.replace_record(nnode);
                let ghost m2 = self.records();
                proof {
                    assert(m2.dom() =~= m.dom());
                    lemma_rewired_starts_settling(m, m2, n, self.rrt.start, new_id, idx, delta);
                    if old(self).edges_steered() {
                        assert forall|k: usize| 1 <= k < n implies 0 <= parent_place(
                            (#[trigger] m[k]).node.parent_id,
                        ) < n by {
                            assert(m[k].node.parent_id is Some);
                        }
                        assert(m2[idx].node.path@ == steer_path(
                            m2[new_id].node.point,
                            near_pt,
                            self.rrt.expand_dis as int,
                            self.rrt.path_resolution as int,
                        ));
                        lemma_steered_kept(
                            m,
                            m2,
                            n,
                            n,
                            idx,
                            self.rrt.expand_dis as int,
                            self.rrt.path_resolution as int,
                        );
                    }
                    if old(self).edges_clear() {
                        assert forall|k: usize| 1 <= k < n implies 0 <= parent_place(
                            (#[trigger] m[k]).node.parent_id,
                        ) < n by {
                            assert(m[k].node.parent_id is Some);
                        }
                        lemma_clear_kept(m, m2, n, n, idx, self.rrt.obstacles@);
                    }
                }
                self.propagate_cost_to_leaves(idx, Ghost(delta));
                proof {
                    let m3 = self.records();
                    assert(m3[new_id].same_as(new_node)) by {
                        assert(m3[new_id].node.same_as(&m2[new_id].node));
                        assert(m2[new_id] == m[new_id]);
                        lemma_dist_zero_iff_same(near_pt, new_pt);
                    }
                    assert(m3[idx].cost == m2[idx].cost);
                    assert forall|k: usize| k < n implies {
                        &&& (#[trigger] m3[k]).node.point == first[k].node.point
                        &&& m3[k].cost <= first[k].cost
                        &&& m3[k].node.same_as(&first[k].node) || {
                            &&& near_inds@.contains(k)
                            &&& m3[k].node.parent_id == Some(new_id)
                            &&& m3[k].node.path@ == steer_path(
                                new_pt,
                                first[k].node.point,
                                self.rrt.expand_dis as int,
                                self.rrt.path_resolution as int,
                            )
                            &&& passable(&old(self).rrt, new_pt, first[k].node.point)
                        }
                    } by {
                        assert(m3[k].node.same_as(&m2[k].node));
                        assert(m[k].node.point == first[k].node.point);
                        if k != idx {
                            assert(m2[k] == m[k]);
                        } else {
                            assert(near_inds@[i as int] == k);
                        }
                    }
                    assert forall|j: int| 0 <= j < i + 1 implies !improves(
                        &old(self).rrt,
                        m3,
                        new_id,
                        #[trigger] near_inds@[j],
                    ) by {
                        let q = near_inds@[j];
                        assert(q < n);
                        assert(m3[q].node.same_as(&m2[q].node));
                        assert(m3[q].node.point == m[q].node.point);
                        assert(m3[new_id].node.point == m[new_id].node.point);
                        if q == idx {
                        } else {
                            assert(m2[q] == m[q]);
                            if j < i {
                                assert(!improves(&old(self).rrt, m, new_id, near_inds@[j]));
                            }
                        }
                    }
                    assert(improves(&old(self).rrt, m, new_id, idx));
                    assert forall|k: usize| k < n && k != idx implies (
                    #[trigger] m3[k]).node.same_as(&m[k].node) by {
                        assert(m3[k].node.same_as(&m2[k].node));
                        assert(m2[k] == m[k]);
                    }
                    assert(m3[idx].node.same_as(&m2[idx].node));
                    assert(rewire_step(&old(self).rrt, n, m, m3, new_id, idx));
                }
            } else {
                proof {
                    assert(!improves(&old(self).rrt, m, new_id, idx));
                }
            }
            proof {
                let longer = trace.push(self.records());
                assert forall|j: int| 0 <= j < i + 1 implies rewire_step(
                    &old(self).rrt,
                    n,
                    #[trigger] longer[j],
                    longer[j + 1],
                    new_id,
                    near_inds@[j],
                ) by {
                    if j < i {
                        assert(longer[j] == trace[j]);
                        assert(longer[j + 1] == trace[j + 1]);
                    } else {
                        assert(longer[j] == m);
                    }
                }
                trace = longer;
            }
            i += 1;
        }
        proof {
            assert(is_rewire_trace(&old(self).rrt, n, trace, new_id, near_inds@));
        }
    }

    /// The identifier of the node nearest to `target`.
    pub open spec fn nearest_id(&self, target: Point2D) -> usize {
        let entries = self.node_tree.index.entries@;
        entries[first_nearest(entry_points(entries), target)].1
    }

    /// The end of the edge steered from the node nearest to `target` toward
    /// it: the point at which a round of growth tries to put a node.
    pub open spec fn candidate_point(&self, target: Point2D) -> Point2D {
        self.edge_from(self.nearest_id(target), target).last()
    }

    /// The nodes near the point `c`, at the tree's present size: those
    /// whose squared distance to `c` is at most the near radius times the
    /// unit of length.
    pub open spec fn near_ids(&self, c: Point2D) -> Seq<usize> {
        within_of(
            self.node_tree.index.entries@,
            c,
            near_radius(
                self.connect_circle_dist as int,
                self.rrt.expand_dis as int,
                self.size() + 1,
            ) * self.unit,
        )
    }

    /// The parent that a round of growth toward `target` gives its node:
    /// the cheapest on offer among the nodes near the candidate point, and
    /// the node nearest to `target` where none is on offer.
    pub open spec fn grown_parent(&self, target: Point2D) -> usize {
        let c = self.candidate_point(target);
        let near = self.near_ids(c);
        if self.has_offer(near, c) {
            near[self.best_offer(near, c)]
        } else {
            self.nearest_id(target)
        }
    }

    /// The edge that a round of growth toward `target` gives its node: the
    /// edge steered from the parent toward the candidate point.
    pub open spec fn grown_path(&self, target: Point2D) -> Seq<Point2D> {
        let c = self.candidate_point(target);
        if self.has_offer(self.near_ids(c), c) {
            self.edge_from(self.grown_parent(target), c)
        } else {
            self.edge_from(self.nearest_id(target), target)
        }
    }

    /// The cost that a round of growth toward `target` gives its node: the
    /// cost of the parent plus the distance from it to the end of the edge.
    pub open spec fn grown_cost(&self, target: Point2D) -> int {
        self.records()[self.grown_parent(target)].cost + dist(
            self.grown_path(target).last(),
            self.records()[self.grown_parent(target)].node.point,
        )
    }

    /// A round of growth toward `target` puts a node into the tree: the
    /// candidate point lies in no obstacle, the line to it from the nearest
    /// node is barred by none, and no node lies yet where the edge from the
    /// parent ends.
    pub open spec fn grows(&self, target: Point2D) -> bool {
        &&& self.offers(self.nearest_id(target), target)
        &&& !self.node_tree.index.has_point(self.grown_path(target).last())
    }

    /// The records `after` are what a round of growth toward `target` that
    /// puts a node into the tree makes of the records: the new node joins
    /// them, and where it took a parent on offer, the nodes near the
    /// candidate point are rewired through it.
    pub open spec fn grown_records(&self, target: Point2D, after: Map<usize, RRTStarNode>) -> bool {
        let c = self.candidate_point(target);
        let near = self.near_ids(c);
        let id = self.size() as usize;
        if self.has_offer(near, c) {
            exists|joined: Map<usize, RRTStarNode>| #[trigger]
                rewired(&self.rrt, self.size() + 1, joined, after, id, near) && joined
                    == self.records().insert(id, joined[id])
        } else {
            after == self.records().insert(id, after[id])
        }
    }

    /// The candidate point of a round of growth toward `target` is within
    /// the expansion distance of the goal.
    pub open spec fn near_goal(&self, target: Point2D) -> bool {
        dist(self.candidate_point(target), self.rrt.goal) <= self.rrt.expand_dis
    }

    /// The planner `after` is what a round of growth toward `target` makes
    /// of this planner.
    pub open spec fn grow_gives(&self, after: &Self, target: Point2D) -> bool {
        let id = self.size() as usize;
        &&& after.same_config(self)
        &&& if self.grows(target) {
            &&& after.size() == self.size() + 1
            &&& after.node_tree.index.entries@ == self.node_tree.index.entries@.push(
                (after.records()[id].node.point, id),
            )
            &&& self.grown_records(target, after.records())
            &&& after.records()[id].node.id == id
            &&& after.records()[id].node.parent_id == Some(self.grown_parent(target))
            &&& after.records()[id].node.path@ == self.grown_path(target)
            &&& after.records()[id].node.point == self.grown_path(target).last()
            &&& after.records()[id].cost == self.grown_cost(target)
        } else {
            &&& after.records() == self.records()
            &&& after.node_tree.index.entries@ == self.node_tree.index.entries@
        }
    }

    /// The tree holds the root alone, as planning begins.
    pub open spec fn holds_root_alone(&self) -> bool {
        &&& self.size() == 1
        &&& self.node_tree.index.entries@ == seq![(self.rrt.start, 0usize)]
        &&& self.records().dom() == set![0usize]
        &&& self.records()[0].node.id == 0
        &&& self.records()[0].node.parent_id is None
        &&& self.records()[0].node.point == self.rrt.start
        &&& self.records()[0].node.path@.len() == 0
        &&& self.records()[0].cost == 0
    }

    /// This planner is what `rounds` rounds of growth make of the planner
    /// `first` with its root alone, each toward a sample of its own, none
    /// of which ended the search.
    pub open spec fn searching(&self, first: &Self, rounds: nat) -> bool
        decreases rounds,
    {
        if rounds == 0 {
            self.same_config(first) && self.holds_root_alone()
        } else {
            exists|mid: Self, target: Point2D| #[trigger]
                mid.grow_gives(self, target) && mid.rrt.can_sample(target) && mid.searching(
                    first,
                    (rounds - 1) as nat,
                ) && (mid.search_until_max || !mid.near_goal(target))
        }
    }

    /// This planner is what the search made of the planner `first` with
    /// its root alone in `rounds` rounds of growth, the last of which ended
    /// it: it was the last round allowed, or the search was to end with the
    /// goal within reach, and the candidate point of the round was.
    pub open spec fn ended(&self, first: &Self, rounds: nat) -> bool {
        exists|mid: Self, target: Point2D| #[trigger]
            mid.grow_gives(self, target) && mid.rrt.can_sample(target) && rounds >= 1
                && mid.searching(first, (rounds - 1) as nat) && (rounds == mid.rrt.max_iter || (
            !mid.search_until_max && mid.near_goal(target)))
    }

    /// One round of growth toward the sample `rnd_node`. An edge is steered
    /// from the nearest node toward the sample. Where its end lies in no
    /// obstacle and the line to it is barred by none, a node is made there
    /// with the cheapest parent on offer nearby; where the index takes its
    /// point, it joins the tree, and the nodes nearby are rewired through
    /// it. Tells whether the end of the first edge is within the expansion
    /// distance of the goal.
    #[verifier::rlimit(50)]
    pub fn grow(&mut self, rnd_node: &RRTStarNode) -> (near_goal: bool)
        requires
            old(self).config_ok(),
            old(self).tree_ok(),
            old(self).size() <= u32::MAX,
            point_in_range(rnd_node.node.point),
        ensures
            final(self).same_config(old(self)),
            final(self).rrt.node_list == old(self).rrt.node_list,
            final(self).tree_ok(),
            old(self).edges_steered() ==> final(self).edges_steered(),
            old(self).edges_clear() ==> final(self).edges_clear(),
            near_goal == old(self).near_goal(rnd_node.node.point),
            old(self).grow_gives(final(self), rnd_node.node.point),
            forall|k: usize|
                k < old(self).size() ==> (#[trigger] final(self).records()[k]).node.point == old(
                    self,
                ).records()[k].node.point && final(self).records()[k].cost <= old(
                    self,
                ).records()[k].cost,
            !old(self).grows(rnd_node.node.point) ==> final(self).records() == old(self).records()
                && final(self).node_tree.index.entries@ == old(self).node_tree.index.entries@,
            old(self).grows(rnd_node.node.point) ==> {
                let joined = final(self).records()[old(self).size() as usize];
                &&& old(self).grown_records(rnd_node.node.point, final(self).records())
                &&& final(self).size() == old(self).size() + 1
                &&& final(self).node_tree.index.entries@ == old(self).node_tree.index.entries@.push(
                    (joined.node.point, old(self).size() as usize),
                )
                &&& joined.node.parent_id == Some(old(self).grown_parent(rnd_node.node.point))
                &&& joined.node.path@ == old(self).grown_path(rnd_node.node.point)
                &&& joined.node.point == joined.node.path@.last()
                &&& joined.cost == old(self).grown_cost(rnd_node.node.point)
            },
    {
        let (proposal, near_goal) = self.propose(rnd_node);
        match proposal {
            Some((record, near_inds, rewires)) => {
                let ghost target = rnd_node.node.point;
                let ghost c = self.candidate_point(target);
                let ghost toward = if rewires {
                    c
                } else {
                    target
                };
                let push_idx = record.node.id;
                if rewires {
                    let copy = record.clone();
                    if self.join(record, Ghost(toward)) {
                        let ghost joined = self.records();
                        self.rewire(&copy, &near_inds);
                        proof {
                            assert(joined == old(self).records().insert(
                                push_idx,
                                joined[push_idx],
                            ));
                            assert(rewired(
                                &old(self).rrt,
                                old(self).size() + 1,
                                joined,
                                self.records(),
                                push_idx,
                                near_inds@,
                            ));
                        }
                    }
                } else {
                    self.join(record, Ghost(toward));
                }
            },
            None => {},
        }
        near_goal
    }

    /// The node that a round of growth toward `rnd_node` would put into
    /// the tree, with the nodes near the candidate point, and whether they
    /// are to be rewired through it; or nothing where the candidate point
    /// lies in an obstacle or the line to it is barred. Tells also whether
    /// the candidate point is within the expansion distance of the goal.
    fn propose(&self, rnd_node: &RRTStarNode) -> (r: (
        Option<(RRTStarNode, Vec<usize>, bool)>,
        bool,
    ))
        requires
            self.config_ok(),
            self.tree_ok(),
            self.size() <= u32::MAX,
            point_in_range(rnd_node.node.point),
        ensures
            r.1 == (dist(self.candidate_point(rnd_node.node.point), self.rrt.goal)
                <= self.rrt.expand_dis),
            r.0 is Some <==> self.offers(
                self.nearest_id(rnd_node.node.point),
                rnd_node.node.point,
            ),
            r.0 matches Some(made) ==> {
                let target = rnd_node.node.point;
                let c = self.candidate_point(target);
                let p = self.grown_parent(target);
                &&& made.2 == self.has_offer(self.near_ids(c), c)
                &&& made.1@ == self.near_ids(c)
                &&& forall|j: int| 0 <= j < made.1@.len() ==> #[trigger] made.1@[j] < self.size()
                &&& made.0.node.id == self.size()
                &&& made.0.node.parent_id == Some(p)
                &&& p < self.size()
                &&& made.0.node.path@ == self.grown_path(target)
                &&& made.0.node.point == made.0.node.path@.last()
                &&& made.0.cost == self.grown_cost(target)
                &&& point_in_range(made.0.node.point)
                &&& self.offers(p, if made.2 {
                    c
                } else {
                    target
                })
                &&& made.0.node.path@ == self.edge_from(p, if made.2 {
                    c
                } else {
                    target
                })
            },
    {
        let ghost target = rnd_node.node.point;
        let nearest_ind = self.node_tree.get_nearest_node_index(rnd_node).unwrap();
        let nearest_node = self.node_tree.get(nearest_ind).unwrap();
        proof {
            lemma_record_in_range(&self.node_tree, nearest_ind);
        }
        let push_idx = self.node_tree.len();
        let new_node_r = self.rrt.steer(
            &nearest_node.node,
            &rnd_node.node,
            self.rrt.expand_dis,
            push_idx,
        );
        let d: u64 = new_node_r.distance_between(&nearest_node.node);
        assert(nearest_node.cost + d <= u64::MAX) by (nonlinear_arith)
            requires
                nearest_node.cost <= (self.size() - 1) * (DIST_LIMIT - 1),
                d <= DIST_LIMIT - 1,
                1 <= self.size() <= 4294967295,
                DIST_LIMIT == 4294967296,
        ;
        let cost_r: u64 = nearest_node.cost + d;
        let c = new_node_r.point;
        let near_goal = self.rrt.expand_dis >= 0 && crate::math::distance(&c, &self.rrt.goal)
            <= self.rrt.expand_dis as u64;
        proof {
            lemma_dist_zero_iff_same(c, self.rrt.goal);
        }
        let new_node = RRTStarNode { node: new_node_r, cost: cost_r };
        let edge_collision_occured = self.is_collision_parent(&new_node);
        if !self.is_collision(&c) && !edge_collision_occured {
            let near_inds = self.find_near_nodes(&new_node);
            let node_with_updated_parent = self.choose_parent(&new_node, &near_inds, push_idx);
            match node_with_updated_parent {
                Some(node_p) => {
                    proof {
                        let k = self.best_offer(near_inds@, c);
                        assert(self.offers(near_inds@[k], c));
                        assert(near_inds@[k] < self.size());
                    }
                    (Some((node_p, near_inds, true)), near_goal)
                },
                None => (Some((new_node, near_inds, false)), near_goal),
            }
        } else {
            (None, near_goal)
        }
    }

    /// Registers `record`, a node made for the tree as it is: where the
    /// index takes its point, it joins the tree. Tells whether it did.
    fn join(&mut self, record: RRTStarNode, Ghost(toward): Ghost<Point2D>) -> (joined: bool)
        requires
            old(self).tree_ok(),
            old(self).size() <= u32::MAX,
            record.node.id == old(self).size(),
            point_in_range(record.node.point),
            record.node.point == record.node.path@.last(),
            record.node.parent_id matches Some(p) && p < old(self).size() && old(self).offers(
                p,
                toward,
            ) && record.node.path@ == old(self).edge_from(p, toward) && record.cost == old(
                self,
            ).records()[p].cost + dist(record.node.point, old(self).records()[p].node.point),
        ensures
            joined == !old(self).node_tree.index.has_point(record.node.point),
            final(self).rrt == old(self).rrt,
            final(self).connect_circle_dist == old(self).connect_circle_dist,
            final(self).search_until_max == old(self).search_until_max,
            final(self).unit == old(self).unit,
            final(self).tree_ok(),
            old(self).edges_steered() ==> final(self).edges_steered(),
            old(self).edges_clear() ==> final(self).edges_clear(),
            !joined ==> final(self).records() == old(self).records()
                && final(self).node_tree.index.entries@ == old(self).node_tree.index.entries@,
            joined ==> final(self).records() == old(self).records().insert(
                record.node.id,
                record,
            ) && final(self).node_tree.index.entries@ == old(self).node_tree.index.entries@.push(
                (record.node.point, record.node.id),
            ),
    {
        let ghost m = self.records();
        let ghost n = self.size();
        let ghost p = record.node.parent_id->0;
        proof {
            assert(!m.contains_key(record.node.id));
            crate::rrt::lemma_steer_path_ends(
                m[p].node.point,
                toward,
                self.rrt.expand_dis as int,
                self.rrt.path_resolution as int,
            );
        }
        match self.node_tree.add_node(record) {
            Ok(_) => {
                proof {
                    let m2 = self.records();
                    lemma_new_point(&old(self).node_tree, record.node.point);
                    lemma_joined(m, m2, n, self.rrt.start, record);
                    assert forall|q: usize| 1 <= q < n implies 0 <= parent_place(
                        (#[trigger] m[q]).node.parent_id,
                    ) < n by {
                        assert(m[q].node.parent_id is Some);
                    }
                    if old(self).edges_steered() {
                        lemma_steered_kept(
                            m,
                            m2,
                            n,
                            n + 1,
                            n as usize,
                            self.rrt.expand_dis as int,
                            self.rrt.path_resolution as int,
                        );
                    }
                    if old(self).edges_clear() {
                        lemma_clear_kept(m, m2, n, n + 1, n as usize, self.rrt.obstacles@);
                    }
                }
                true
            },
            Err(_) => false,
        }
    }

    /// The nodes from which the goal is sought: those whose squared
    /// distance to the goal is at most the expansion distance times the
    /// unit of length.
    pub open spec fn goal_ids(&self) -> Seq<usize> {
        within_of(
            self.node_tree.index.entries@,
            self.rrt.goal,
            self.rrt.expand_dis * self.unit,
        )
    }

    /// The goal can be reached safely from the node `id`: the end of the
    /// edge steered from it toward the goal lies in no obstacle, and the
    /// straight line from the node to that end is barred by none.
    pub open spec fn goal_safe(&self, id: usize) -> bool {
        self.offers(id, self.rrt.goal)
    }

    /// The place `k` of `ids` holds the first of the cheapest nodes from
    /// which the goal can be reached safely.
    pub open spec fn is_best_goal(&self, ids: Seq<usize>, k: int) -> bool {
        &&& 0 <= k < ids.len()
        &&& self.goal_safe(ids[k])
        &&& forall|j: int|
            0 <= j < ids.len() && self.goal_safe(#[trigger] ids[j]) ==> self.records()[ids[k]].cost
                <= self.records()[ids[j]].cost
        &&& forall|j: int|
            0 <= j < k && self.goal_safe(#[trigger] ids[j]) ==> self.records()[ids[k]].cost
                < self.records()[ids[j]].cost
    }

    /// The node from which the path to the goal is taken: of the nodes
    /// within reach of the goal from which the goal can be reached safely,
    /// the first of least cost. There is none where no node is within
    /// reach, or no edge toward the goal is free of the obstacles.
    pub fn search_best_goal_node(&self) -> (r: Option<usize>)
        requires
            self.config_ok(),
            self.tree_ok(),
        ensures
            r is None <==> forall|j: int|
                0 <= j < self.goal_ids().len() ==> !self.goal_safe(#[trigger] self.goal_ids()[j]),
            r matches Some(id) ==> exists|k: int|
                #[trigger] self.is_best_goal(self.goal_ids(), k) && self.goal_ids()[k] == id
                    && id < self.size(),
    {
        let goal_node = RRTStarNode { node: RRTNode::new(self.rrt.goal), cost: 0 };
        let goal_inds = self.node_tree.get_within_scaled(
            &goal_node,
            self.rrt.expand_dis,
            self.unit,
        );
        let end_node = RRTNode::new(self.rrt.goal);
        let mut best: Option<usize> = None;
        let mut min_cost: u64 = 0;
        let ghost mut best_k: int = 0;
        let mut i: usize = 0;
        while i < goal_inds.len()
            invariant
                i <= goal_inds.len(),
                self.config_ok(),
                self.tree_ok(),
                goal_inds@ == self.goal_ids(),
                end_node.point == self.rrt.goal,
                forall|k: int|
                    0 <= k < goal_inds@.len() ==> self.records().contains_key(
                        #[trigger] goal_inds@[k],
                    ),
                best is None ==> forall|j: int|
                    0 <= j < i ==> !self.goal_safe(#[trigger] goal_inds@[j]),
                best matches Some(id) ==> {
                    &&& 0 <= best_k < i
                    &&& id == goal_inds@[best_k]
                    &&& min_cost == self.records()[id].cost
                    &&& self.goal_safe(id)
                    &&& forall|j: int|
                        0 <= j < i && self.goal_safe(#[trigger] goal_inds@[j]) ==> min_cost
                            <= self.records()[goal_inds@[j]].cost
                    &&& forall|j: int|
                        0 <= j < best_k && self.goal_safe(#[trigger] goal_inds@[j]) ==> min_cost
                            < self.records()[goal_inds@[j]].cost
                },
            decreases goal_inds.len() - i,
        {
            let idx = goal_inds[i];
            let record = self.node_tree.get(idx).unwrap();
            proof {
                lemma_record_in_range(&self.node_tree, idx);
            }
            let t_node = self.rrt.steer(&record.node, &end_node, self.rrt.expand_dis, 0);
            assert(t_node.parent_id == Some(idx));
            let edge_collision_occured = self.is_collision_parent_rrt(&t_node);
            if !self.is_collision(&t_node.point) && !edge_collision_occured {
                let better = match best {
                    Some(_) => record.cost < min_cost,
                    None => true,
                };
                if better {
                    best = Some(idx);
                    min_cost = record.cost;
                    proof {
                        best_k = i as int;
                    }
                }
            }
            i += 1;
        }
        proof {
            if best is Some {
                assert(self.is_best_goal(self.goal_ids(), best_k));
            }
        }
        best
    }

    /// The identifiers of the nodes near `new_node`: those whose squared
    /// distance to it is at most the near radius times the unit of length.
    pub fn find_near_nodes(&self, new_node: &RRTStarNode) -> (r: Vec<usize>)
        requires
            self.node_tree.well_formed(),
            self.size() <= u32::MAX,
            -2 * COORD_LIMIT <= self.connect_circle_dist <= 2 * COORD_LIMIT,
            point_in_range(new_node.node.point),
        ensures
            r@ == within_of(
                self.node_tree.index.entries@,
                new_node.node.point,
                near_radius(
                    self.connect_circle_dist as int,
                    self.rrt.expand_dis as int,
                    self.size() + 1,
                ) * self.unit,
            ),
            forall|k: int| 0 <= k < r@.len() ==> self.records().contains_key(#[trigger] r@[k]),
    {
        let n_nodes: u64 = self.node_tree.len() as u64 + 1;
        let r: i64 = near_radius_of(self.connect_circle_dist, self.rrt.expand_dis, n_nodes);
        self.node_tree.get_within_scaled(new_node, r, self.unit)
    }
}

impl<'a> Planner<'a> for RRTStar<'a> {
    open spec fn spec_obstacles(&self) -> Seq<&dyn Collision> {
        self.rrt.obstacles@
    }

    /// The configuration is in range and the tree is empty.
    open spec fn ready(&self) -> bool {
        &&& self.config_ok()
        &&& self.node_tree.well_formed()
        &&& self.size() == 0
    }

    /// The tree is rooted at the start, and the cost of every other node is
    /// the cost of its parent plus the distance between the two. A path is
    /// returned exactly where the goal can be reached safely from a node
    /// within reach of it: it leads from the cheapest such node up the tree
    /// to the start.
    open spec fn planned(&self, before: &Self, result: Option<Path2D>) -> bool {
        &&& self.same_config(before)
        &&& self.tree_ok()
        &&& self.edges_steered()
        &&& self.edges_clear()
        &&& self.size() <= self.rrt.max_iter + 1
        &&& if self.rrt.max_iter == 0 {
            self.holds_root_alone()
        } else {
            exists|rounds: nat| #[trigger] self.ended(before, rounds) && rounds <= self.rrt.max_iter
        }
        &&& match result {
            Some(path) => exists|k: int|
                {
                    let id = self.goal_ids()[k];
                    &&& #[trigger] self.is_best_goal(self.goal_ids(), k)
                    &&& id < self.size()
                    &&& path.0@ == climb(
                        self.records(),
                        self.records()[id].node.point,
                        self.records()[id].node.parent_id,
                        self.size() as nat,
                    )
                    &&& path.0@[0] == self.records()[id].node.point
                    &&& path.0@.last() == self.rrt.start
                    &&& path.0@.len() <= self.size()
                },
            None => forall|j: int|
                0 <= j < self.goal_ids().len() ==> !self.goal_safe(#[trigger] self.goal_ids()[j]),
        }
    }

    fn obstacles(&self) -> (r: &Vec<&dyn Collision>) {
        self.rrt.obstacles()
    }

    fn plan(&mut self) -> (r: Option<Path2D>) {
        let start_node = RRTNode::new(self.rrt.start);
        let end_node = RRTNode::new(self.rrt.goal);
        let ghost root = RRTStarNode { node: start_node, cost: 0 };
        let added = self.node_tree.add_node(RRTStarNode { node: start_node, cost: 0 });
        proof {
            assert(old(self).records().dom() =~= Set::<usize>::empty()) by {
                assert(old(self).node_tree.index.entries@.len() == 0);
            }
            assert(!old(self).records().contains_key(0));
            assert(added is Ok);
            let m = self.records();
            assert(m == old(self).records().insert(0, root));
            assert forall|k: usize| #[trigger] m.contains_key(k) <==> k < 1 by {
                assert(!old(self).records().contains_key(k));
            }
            assert(cost_limit(1) == 0) by (nonlinear_arith)
                requires
                    cost_limit(1) == (1 - 1) * (DIST_LIMIT - 1),
            ;
            assert(star_ok(m, 1, self.rrt.start));
            assert(m.dom() =~= set![0usize]);
            assert(self.node_tree.index.entries@ == seq![(self.rrt.start, 0usize)]);
            assert(self.searching(old(self), 0));
        }
        let mut round: u32 = 0;
        while round < self.rrt.max_iter
            invariant_except_break
                self.searching(old(self), round as nat),
            invariant
                round <= self.rrt.max_iter,
                self.config_ok(),
                self.same_config(old(self)),
                self.tree_ok(),
                self.edges_steered(),
                self.edges_clear(),
                self.size() <= round + 1,
                end_node.point == self.rrt.goal,
            ensures
                if self.rrt.max_iter == 0 {
                    self.holds_root_alone()
                } else {
                    1 <= round <= self.rrt.max_iter && self.ended(old(self), round as nat)
                },
            decreases self.rrt.max_iter - round,
        {
            let ghost at_start = *self;
            let rnd_node = self.get_random_node(&end_node);
            let ghost mid = *self;
            proof {
                lemma_searching_same_tree(at_start, mid, *old(self), round as nat);
            }
            let near_goal = self.grow(&rnd_node);
            proof {
                assert(mid.grow_gives(self, rnd_node.node.point));
                assert(mid.rrt.can_sample(rnd_node.node.point));
            }
            round += 1;
            if !self.search_until_max && near_goal {
                proof {
                    assert(self.ended(old(self), round as nat));
                }
                break ;
            }
            proof {
                assert(self.searching(old(self), round as nat));
                if round == self.rrt.max_iter {
                    assert(self.ended(old(self), round as nat));
                }
            }
        }
        let last_index = self.search_best_goal_node();
        match last_index {
            Some(idx) => {
                let record = self.node_tree.get(idx).unwrap();
                proof {
                    lemma_climb_reaches_root(self.records(), self.size(), self.rrt.start, idx);
                }
                Some(Path2D(self.node_tree.get_path(record, Vec::new())))
            },
            None => None,
        }
    }
}

} // verus!
