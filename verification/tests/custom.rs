use rrt_merci::bound::{Collision, RectangleBounds};
use rrt_merci::math::Point2D;
use rrt_merci::planner::Planner;
use rrt_merci::rrt::RRT;

/// Everything above the line `y = 5`.
struct UpperHalf;

impl Collision for UpperHalf {
    fn well_formed(&self) -> bool {
        true
    }

    fn collides(&self, pt: Point2D) -> bool {
        pt.1 > 5
    }

    fn blocks(&self, _start: Point2D, _end: Point2D) -> bool {
        false
    }

    fn is_collision(&self, pt: &Point2D) -> bool {
        pt.1 > 5
    }

    fn is_collision_segment(&self, _start: &Point2D, _end: &Point2D) -> bool {
        false
    }
}

#[test]
fn a_shape_of_the_caller_is_an_obstacle() {
    let wall = UpperHalf;
    let mut p = RRT::with_seed(
        (0, 0),
        (10, 0),
        vec![&wall],
        1,
        1,
        30,
        5000,
        RectangleBounds { min_pt: (-2, -8), max_pt: (12, 8) },
        1,
    );
    assert!(p.is_collision(&(0, 6)));
    assert!(!p.is_collision(&(0, 5)));
    let path = p.plan().unwrap();
    assert_eq!(path.0[0], (10, 0));
    for n in p.node_list.iter() {
        assert!(n.point.1 <= 5);
    }
}
