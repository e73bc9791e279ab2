use rand::rngs::StdRng;
use rand::SeedableRng;
use rrt_merci::bound::{CircleBounds, Collision, RectangleBounds};
use rrt_merci::math::{distance, distance_up};
use rrt_merci::path::Path2D;
use rrt_merci::rrt::RRT;

fn stairs() -> Path2D {
    Path2D(vec![(0, 0), (10, 0), (10, 10), (20, 10), (20, 20)])
}

#[test]
fn path_length_sums_the_legs() {
    assert_eq!(stairs().path_length(), 40);
    assert_eq!(Path2D(vec![(0, 0), (3, 4), (3, 4), (0, 0)]).path_length(), 10);
    // every leg is rounded up
    assert_eq!(Path2D(vec![(0, 0), (1, 1), (2, 2)]).path_length(), 4);
    assert_eq!(Path2D(vec![(0, 0), (7, 3), (10, 7), (10, 12)]).path_length(), 18);
}

#[test]
fn path_length_is_no_less_than_the_distance_between_the_ends() {
    let p = Path2D(vec![(0, 0), (2, 2), (4, 4)]);
    assert_eq!(p.path_length(), 6);
    assert_eq!(distance(&(0, 0), &(4, 4)), 5);
    assert_eq!(distance_up(&(0, 0), &(4, 4)), 6);
    let q = Path2D(vec![(0, 0), (30, 40), (60, 80)]);
    assert_eq!(q.path_length(), 100);
    assert_eq!(distance_up(&(0, 0), &(60, 80)), 100);
    assert_eq!(distance_up(&(3, 3), &(3, 3)), 0);
}

#[test]
fn path_length_of_fewer_than_two_points_is_zero() {
    assert_eq!(Path2D(vec![]).path_length(), 0);
    assert_eq!(Path2D(vec![(5, 5)]).path_length(), 0);
}

#[test]
fn target_point_lies_at_its_arc_length() {
    let p = stairs();
    assert_eq!(p.get_target_point(0), ((0, 0), 0));
    assert_eq!(p.get_target_point(5), ((5, 0), 0));
    assert_eq!(p.get_target_point(10), ((10, 0), 0));
    assert_eq!(p.get_target_point(15), ((10, 5), 1));
    assert_eq!(p.get_target_point(20), ((10, 10), 1));
    assert_eq!(p.get_target_point(25), ((15, 10), 2));
    assert_eq!(p.get_target_point(30), ((20, 10), 2));
    assert_eq!(p.get_target_point(32), ((20, 12), 3));
    assert_eq!(p.get_target_point(40), ((20, 20), 3));
    // a straight path in quarters: the point at the arc length 1.25
    let q = Path2D(vec![(0, 0), (4, 0), (8, 0), (12, 0)]);
    assert_eq!(q.get_target_point(5), ((5, 0), 1));
    assert_eq!(q.get_target_point(3), ((3, 0), 0));
    assert_eq!(q.get_target_point(11), ((11, 0), 2));
}

#[test]
fn locate_finds_nothing_beyond_the_walk() {
    let p = stairs();
    assert_eq!(p.locate(25), Some(((15, 10), 2)));
    assert_eq!(p.locate(40), Some(((20, 20), 3)));
    assert_eq!(p.locate(41), None);
    assert_eq!(Path2D(vec![]).locate(0), None);
    assert_eq!(Path2D(vec![(3, 3)]).locate(0), None);
    assert_eq!(Path2D(vec![(0, 0), (5, 0)]).locate(0), Some(((0, 0), 0)));
    assert_eq!(Path2D(vec![(0, 0), (5, 0)]).locate(5), Some(((5, 0), 0)));
    assert_eq!(Path2D(vec![(0, 0), (5, 0)]).locate(6), None);
}

#[test]
fn locate_finds_nothing_on_a_leg_without_length() {
    let p = Path2D(vec![(5, 0), (5, 0), (9, 0)]);
    assert_eq!(p.locate(0), None);
    assert_eq!(p.locate(1), Some(((6, 0), 1)));
    // a leg without length further on is walked over
    let q = Path2D(vec![(0, 0), (5, 0), (5, 0), (9, 0)]);
    assert_eq!(q.locate(5), Some(((5, 0), 0)));
    assert_eq!(q.locate(6), Some(((6, 0), 2)));
}

#[test]
fn target_point_is_rounded_toward_the_start_of_its_leg() {
    let p = Path2D(vec![(0, 0), (7, 3), (10, 7), (10, 12)]);
    // the legs have the lengths 8, 5 and 5
    assert_eq!(p.get_target_point(3), ((2, 1), 0));
    assert_eq!(p.get_target_point(9), ((7, 3), 1));
    assert_eq!(p.get_target_point(11), ((8, 5), 1));
}

#[test]
fn shortcut_joins_the_two_target_points() {
    let p = stairs();
    let s = p.shortcut(&vec![], 15, 25).unwrap();
    assert_eq!(s.0, vec![(0, 0), (10, 0), (10, 5), (15, 10), (20, 10), (20, 20)]);
    assert!(s.path_length() <= p.path_length());
    assert_eq!(s.path_length(), 38);
    // in either order
    let s = p.shortcut(&vec![], 25, 15).unwrap();
    assert_eq!(s.0, vec![(0, 0), (10, 0), (10, 5), (15, 10), (20, 10), (20, 20)]);
}

#[test]
fn shortcut_skips_the_first_leg_and_a_shared_leg() {
    let p = stairs();
    assert!(p.shortcut(&vec![], 5, 25).is_none());
    assert!(p.shortcut(&vec![], 15, 16).is_none());
    assert!(p.shortcut(&vec![], 25, 25).is_none());
    assert!(p.shortcut(&vec![], 15, 41).is_none());
    let s = p.shortcut(&vec![], 15, 35).unwrap();
    assert_eq!(s.0, vec![(0, 0), (10, 0), (10, 5), (20, 15), (20, 20)]);
}

#[test]
fn shortcut_skips_a_barred_connector() {
    let wall = CircleBounds { center_pt: (12, 8), radius: 1 };
    let obstacles: Vec<&dyn Collision> = vec![&wall];
    assert!(stairs().shortcut(&obstacles, 15, 25).is_none());
    let aside = CircleBounds { center_pt: (0, 20), radius: 1 };
    let obstacles: Vec<&dyn Collision> = vec![&aside];
    assert!(stairs().shortcut(&obstacles, 15, 25).is_some());
}

#[test]
fn shortcut_needs_four_points() {
    let p = Path2D(vec![(0, 0), (10, 0), (10, 10)]);
    for a in 0..25 {
        for b in 0..25 {
            assert!(p.shortcut(&vec![], a, b).is_none());
        }
    }
    let q = Path2D(vec![(0, 0), (10, 0), (10, 10), (20, 10)]);
    let s = q.shortcut(&vec![], 15, 25).unwrap();
    assert_eq!(s.0, vec![(0, 0), (10, 0), (10, 5), (15, 10), (20, 10)]);
}

fn long_path() -> Path2D {
    let mut pts = vec![];
    for i in 0..20 {
        pts.push((i * 10, 0));
        pts.push((i * 10, 10));
    }
    Path2D(pts)
}

#[test]
fn smoothing_keeps_the_ends() {
    let p = long_path();
    let mut rng = StdRng::seed_from_u64(3);
    let s = p.path_smoothing_with(&vec![], 200, &mut rng);
    assert_eq!(s.0[0], (0, 0));
    assert_eq!(*s.0.last().unwrap(), (190, 10));
    assert_eq!(s.0[1], (0, 10));
    assert!(s.0 != p.0);
    let s = p.path_smoothing_obstacle(&vec![], 50);
    assert_eq!(s.0[0], (0, 0));
    assert_eq!(*s.0.last().unwrap(), (190, 10));
}

#[test]
fn smoothing_without_trials_copies_the_path() {
    let p = long_path();
    assert_eq!(p.path_smoothing_obstacle(&vec![], 0).0, p.0);
}

#[test]
fn smoothing_leaves_a_short_path() {
    let p = Path2D(vec![(0, 0), (10, 0), (10, 10)]);
    assert_eq!(p.path_smoothing_obstacle(&vec![], 100).0, p.0);
    assert!(Path2D(vec![]).path_smoothing_obstacle(&vec![], 100).0.is_empty());
    assert_eq!(Path2D(vec![(4, 4)]).path_smoothing_obstacle(&vec![], 100).0, vec![(4, 4)]);
    let still = Path2D(vec![(4, 4), (4, 4), (4, 4), (4, 4), (4, 4), (4, 4)]);
    assert_eq!(still.path_smoothing_obstacle(&vec![], 100).0, still.0);
}

#[test]
fn smoothing_an_axis_aligned_path_does_not_lengthen_it() {
    let p = long_path();
    for seed in 0..10 {
        let mut rng = StdRng::seed_from_u64(seed);
        let s = p.path_smoothing_with(&vec![], 100, &mut rng);
        assert!(s.path_length() <= p.path_length());
    }
}

#[test]
fn smoothing_never_cuts_through_an_obstacle_line() {
    // every connector off the first leg would cross one of the walls' lines
    let wall = RectangleBounds { min_pt: (-1000, -1000), max_pt: (1000, 1000) };
    let circle = CircleBounds { center_pt: (95, 5), radius: 500 };
    let obstacles: Vec<&dyn Collision> = vec![&wall, &circle];
    let p = long_path();
    let mut rng = StdRng::seed_from_u64(1);
    assert_eq!(p.path_smoothing_with(&obstacles, 100, &mut rng).0, p.0);
}

#[test]
fn planner_smoothing_uses_the_planner_obstacles() {
    let circle = CircleBounds { center_pt: (95, 5), radius: 500 };
    let walled = RRT::with_seed(
        (0, 0),
        (10, 0),
        vec![&circle],
        1,
        1,
        10,
        10,
        RectangleBounds { min_pt: (0, 0), max_pt: (10, 10) },
        1,
    );
    let p = long_path();
    assert_eq!(walled.path_smoothing(&p, 100).0, p.0);
    let free = RRT::with_seed(
        (0, 0),
        (10, 0),
        vec![],
        1,
        1,
        10,
        10,
        RectangleBounds { min_pt: (0, 0), max_pt: (10, 10) },
        1,
    );
    let s = free.path_smoothing(&p, 200);
    assert_eq!(s.0[0], (0, 0));
    assert_eq!(*s.0.last().unwrap(), (190, 10));
}

#[test]
fn shortcut_that_would_lengthen_the_path_is_not_taken() {
    // every leg has the length 6; the two target points are rounded onto the grid
    let p = Path2D(vec![(-5, -3), (0, 0), (5, 3), (10, 6), (15, 9)]);
    assert_eq!(p.path_length(), 24);
    assert_eq!(p.get_target_point(11), ((4, 2), 1));
    assert_eq!(p.get_target_point(13), ((5, 3), 2));
    // (-5,-3), (0,0), (4,2), (5,3), (10,6), (15,9) would have the length 25
    assert_eq!(Path2D(vec![(0, 0), (4, 2), (5, 3), (10, 6)]).path_length(), 5 + 2 + 6);
    assert!(p.shortcut(&vec![], 11, 13).is_none());
    assert!(p.shortcut(&vec![], 13, 11).is_none());
    // on one line, with both target points rounded off it
    let q = Path2D(vec![(0, 0), (3, 4), (6, 8), (9, 12), (12, 16)]);
    assert_eq!(q.path_length(), 20);
    assert_eq!(q.get_target_point(7), ((4, 5), 1));
    assert_eq!(q.get_target_point(17), ((10, 13), 3));
    assert_eq!(Path2D(vec![(0, 0), (3, 4), (4, 5), (10, 13), (12, 16)]).path_length(), 21);
    assert!(q.shortcut(&vec![], 7, 17).is_none());
    // where the target points fall on the grid the connector is taken
    assert_eq!(q.get_target_point(10), ((6, 8), 1));
    assert_eq!(q.get_target_point(20), ((12, 16), 3));
    let s = q.shortcut(&vec![], 10, 20).unwrap();
    assert_eq!(s.0, vec![(0, 0), (3, 4), (6, 8), (12, 16), (12, 16)]);
    assert_eq!(s.path_length(), 20);
}

#[test]
fn path_clone_keeps_the_points() {
    let p = stairs();
    assert_eq!(p.clone().0, p.0);
}

#[test]
fn shortcut_never_lengthens_a_path() {
    let p = Path2D(vec![(-5, -3), (0, 0), (5, 3), (10, 6), (15, 9), (11, 20), (-7, 31)]);
    let whole = p.path_length();
    let mut cuts = 0;
    let mut shorter = 0;
    for first in 0..whole as u64 {
        for second in 0..whole as u64 {
            if let Some(cut) = p.shortcut(&vec![], first, second) {
                cuts += 1;
                assert!(cut.path_length() <= whole);
                assert_eq!(cut.0[0], (-5, -3));
                assert_eq!(*cut.0.last().unwrap(), (-7, 31));
                if cut.path_length() < whole {
                    shorter += 1;
                }
            }
        }
    }
    assert!(cuts > 0);
    assert!(shorter > 0);
}

#[test]
fn smoothing_never_lengthens_a_path() {
    let slanted = Path2D(vec![(-5, -3), (0, 0), (5, 3), (10, 6), (15, 9), (11, 20), (-7, 31)]);
    let straight = Path2D(vec![(0, 0), (3, 4), (6, 8), (9, 12), (12, 16)]);
    for p in [slanted, straight] {
        let ends = distance_up(&p.0[0], p.0.last().unwrap()) as u128;
        for seed in 0..20 {
            for rounds in [0, 1, 2, 5, 40] {
                let mut rng = StdRng::seed_from_u64(seed);
                let s = p.path_smoothing_with(&vec![], rounds, &mut rng);
                assert!(s.path_length() <= p.path_length());
                assert!(s.path_length() >= ends);
            }
        }
    }
}
