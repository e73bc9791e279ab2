use rrt_merci::bound::{
    points_in_range, CircleBounds, Collision, ConvexPolygonBounds, RectangleBounds,
};
use rrt_merci::math::{
    distance, div_round_to_zero, euclidean_distance, ilog2, in_range, isqrt, isqrt_wide,
    line_seg_intersects, squared_distance, subtract, COORD_LIMIT,
};

#[test]
fn isqrt_floors_the_root() {
    assert_eq!(isqrt(0), 0);
    assert_eq!(isqrt(1), 1);
    assert_eq!(isqrt(3), 1);
    assert_eq!(isqrt(4), 2);
    assert_eq!(isqrt(24), 4);
    assert_eq!(isqrt(25), 5);
    assert_eq!(isqrt(u64::MAX), 4294967295);
}

#[test]
fn euclidean_distance_of_a_displacement() {
    assert_eq!(euclidean_distance(&(3, 4)), 5);
    assert_eq!(euclidean_distance(&(-3, 4)), 5);
    assert_eq!(euclidean_distance(&(1, 1)), 1);
    assert_eq!(euclidean_distance(&(0, 0)), 0);
}

#[test]
fn subtract_is_componentwise() {
    assert_eq!(subtract(&(5, 7), &(2, 10)), (3, -3));
}

#[test]
fn distances_between_points() {
    assert_eq!(squared_distance(&(1, 1), &(4, 5)), 25);
    assert_eq!(distance(&(1, 1), &(4, 5)), 5);
    assert_eq!(distance(&(0, 0), &(2, 2)), 2);
}

#[test]
fn crossing_segments_intersect() {
    assert!(line_seg_intersects(&(0, 0), &(4, 4), &(0, 4), &(4, 0)));
    assert!(line_seg_intersects(&(0, 0), &(4, 0), &(4, -1), &(4, 1)));
    assert!(!line_seg_intersects(&(0, 0), &(1, 1), &(3, 0), &(3, 5)));
}

#[test]
fn parallel_and_colinear_segments_count_as_apart() {
    assert!(!line_seg_intersects(&(0, 0), &(4, 0), &(0, 1), &(4, 1)));
    assert!(!line_seg_intersects(&(0, 0), &(4, 0), &(2, 0), &(6, 0)));
}

#[test]
fn circle_rim_is_inside() {
    let c = CircleBounds { center_pt: (0, 0), radius: 5 };
    assert!(c.is_collision(&(5, 0)));
    assert!(c.is_collision(&(3, 4)));
    assert!(c.is_collision(&(0, 0)));
    assert!(!c.is_collision(&(6, 0)));
    assert!(!c.is_collision(&(4, 4)));
}

#[test]
fn circle_segment_test_uses_the_whole_line() {
    let c = CircleBounds { center_pt: (0, 0), radius: 5 };
    assert!(c.is_collision_segment(&(-10, 0), &(10, 0)));
    assert!(c.is_collision_segment(&(-10, 5), &(10, 5)));
    assert!(!c.is_collision_segment(&(-10, 6), &(10, 6)));
    // far from the circle, but on a line that passes through it
    assert!(c.is_collision_segment(&(100, 0), &(200, 0)));
    // two equal points span no line
    assert!(!c.is_collision_segment(&(1, 1), &(1, 1)));
}

#[test]
fn rectangle_point_test_joins_its_comparisons_by_or() {
    let r = RectangleBounds { min_pt: (0, 0), max_pt: (10, 10) };
    assert!(r.is_collision(&(5, 5)));
    assert!(r.is_collision(&(50, 50)));
    assert!(r.is_collision(&(-50, -50)));
    let inverted = RectangleBounds { min_pt: (10, 10), max_pt: (0, 0) };
    assert!(!inverted.is_collision(&(5, 5)));
    assert!(inverted.is_collision(&(11, 5)));
}

#[test]
fn rectangle_segment_test_looks_at_three_sides() {
    let r = RectangleBounds { min_pt: (0, 0), max_pt: (10, 10) };
    assert!(r.is_collision_segment(&(5, -5), &(5, 5)));
    assert!(r.is_collision_segment(&(-5, 5), &(5, 5)));
    assert!(r.is_collision_segment(&(5, 5), &(15, 5)));
    assert!(!r.is_collision_segment(&(5, 5), &(5, 15)));
    assert!(!r.is_collision_segment(&(2, 2), &(8, 8)));
}

#[test]
fn convex_polygon_from_unordered_corners() {
    let poly = ConvexPolygonBounds::new(&vec![(1, 1), (2, 1), (1, 2), (2, 2)]).unwrap();
    assert!(!poly.is_collision(&(5, 5)));
    assert!(poly.is_collision(&(1, 1)));
    assert!(poly.is_collision(&(2, 2)));
    assert!(!poly.is_collision(&(3, 1)));
    let doubled = ConvexPolygonBounds::new(&vec![(2, 2), (4, 2), (2, 4), (4, 4)]).unwrap();
    assert!(doubled.is_collision(&(3, 3)));
    assert!(!doubled.is_collision(&(10, 10)));
    // the same square in thousandths
    let fine = ConvexPolygonBounds::new(&vec![
        (1000, 1000),
        (2000, 1000),
        (1000, 2000),
        (2000, 2000),
    ])
    .unwrap();
    assert!(fine.is_collision(&(1500, 1500)));
    assert!(!fine.is_collision(&(5000, 5000)));
    assert!(fine.is_collision(&(2000, 1500)));
    assert!(!fine.is_collision(&(2001, 1500)));
    assert_eq!(fine.points, vec![(1000, 1000), (2000, 1000), (1000, 2000), (2000, 2000)]);
}

#[test]
fn circle_rim_in_thousandths() {
    let c = CircleBounds { center_pt: (0, 0), radius: 5000 };
    assert!(c.is_collision(&(3000, 4000)));
    assert!(c.is_collision(&(5000, 0)));
    assert!(!c.is_collision(&(3000, 4001)));
    assert!(!c.is_collision(&(5001, 0)));
    let turned = CircleBounds { center_pt: (0, 0), radius: -5000 };
    assert!(turned.is_collision(&(3000, 4000)));
    assert!(!turned.is_collision_segment(&(-10, 0), &(10, 0)));
}

#[test]
fn convex_polygon_needs_three_points_off_one_line() {
    assert!(ConvexPolygonBounds::new(&vec![]).is_none());
    assert!(ConvexPolygonBounds::new(&vec![(0, 0), (1, 1)]).is_none());
    assert!(ConvexPolygonBounds::new(&vec![(0, 0), (1, 1), (2, 2), (5, 5)]).is_none());
    assert!(ConvexPolygonBounds::new_from_points(&[(0, 0), (4, 0), (0, 4)]).is_some());
}

#[test]
fn convex_polygon_segment_is_sampled() {
    let poly = ConvexPolygonBounds::new(&vec![(0, 0), (100, 0), (100, 100), (0, 100)]).unwrap();
    assert!(poly.is_collision_segment(&(-50, 50), &(150, 50)));
    assert!(!poly.is_collision_segment(&(-50, 150), &(150, 150)));
    // the end point itself is not sampled
    assert!(!poly.is_collision_segment(&(-1000, 50), &(0, 50)));
}

#[test]
fn range_tests_go_by_the_coordinate_limit() {
    assert!(in_range(&(COORD_LIMIT, -COORD_LIMIT)));
    assert!(!in_range(&(COORD_LIMIT + 1, 0)));
    assert!(!in_range(&(0, -COORD_LIMIT - 1)));
    assert!(points_in_range(&[(0, 0), (5, 5)]));
    assert!(points_in_range(&[]));
    assert!(!points_in_range(&[(0, 0), (COORD_LIMIT + 1, 5)]));
    assert!(RectangleBounds { min_pt: (0, 0), max_pt: (5, 5) }.in_range());
    assert!(!RectangleBounds { min_pt: (0, 0), max_pt: (5, COORD_LIMIT + 1) }.in_range());
    assert!(CircleBounds { center_pt: (0, 0), radius: 2 * COORD_LIMIT }.in_range());
    assert!(!CircleBounds { center_pt: (0, 0), radius: 2 * COORD_LIMIT + 1 }.in_range());
    assert!(!CircleBounds { center_pt: (COORD_LIMIT + 1, 0), radius: 1 }.in_range());
}

#[test]
fn wide_root_and_binary_logarithm() {
    assert_eq!(isqrt_wide(u128::MAX), 18446744073709551615);
    assert_eq!(isqrt_wide(1000000000000000000000000), 1000000000000);
    assert_eq!(isqrt_wide(999999999999999999999999), 999999999999);
    assert_eq!(ilog2(1), (0, 1));
    assert_eq!(ilog2(2), (1, 2));
    assert_eq!(ilog2(3), (1, 2));
    assert_eq!(ilog2(1023), (9, 512));
    assert_eq!(ilog2(1024), (10, 1024));
    assert_eq!(ilog2(u64::MAX), (63, 9223372036854775808));
    assert_eq!(div_round_to_zero(7, 2), 3);
    assert_eq!(div_round_to_zero(-7, 2), -3);
    assert_eq!(div_round_to_zero(-1, 5), 0);
}
