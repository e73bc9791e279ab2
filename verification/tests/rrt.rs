use rrt_merci::bound::{CircleBounds, Collision, RectangleBounds};
use rrt_merci::math::distance;
use rrt_merci::planner::{any_collision, any_collision_segment, Planner};
use rrt_merci::rrt::{draws_goal, sample_node, RRT};
use rrt_merci::rrtnode::{Node, RRTNode};

fn area() -> RectangleBounds {
    RectangleBounds { min_pt: (-2, -2), max_pt: (12, 3) }
}

fn planner<'a>(
    obstacles: Vec<&'a dyn Collision>,
    expand_dis: i64,
    path_resolution: i64,
    seed: u64,
) -> RRT<'a> {
    RRT::with_seed((0, 0), (10, 0), obstacles, expand_dis, path_resolution, 10, 5000, area(), seed)
}

fn node(id: usize, parent: Option<usize>, x: i64, y: i64) -> RRTNode {
    RRTNode { id, parent_id: parent, point: (x, y), path: vec![] }
}

#[test]
fn new_planner_keeps_its_configuration() {
    let p = RRT::new((1, 2), (3, 4), vec![], 5, 6, 7, 8, area());
    assert_eq!(p.start, (1, 2));
    assert_eq!(p.goal, (3, 4));
    assert_eq!(p.obstacles.len(), 0);
    assert_eq!(p.expand_dis, 5);
    assert_eq!(p.path_resolution, 6);
    assert_eq!(p.goal_sample_rate, 7);
    assert_eq!(p.max_iter, 8);
    assert_eq!(p.explore_area.min_pt, (-2, -2));
    assert_eq!(p.explore_area.max_pt, (12, 3));
    assert!(p.node_list.is_empty());
}

#[test]
fn a_draw_above_the_rate_samples_the_goal() {
    assert!(draws_goal(50, 0));
    assert!(draws_goal(1, 0));
    assert!(!draws_goal(0, 0));
    assert!(!draws_goal(50, 50));
    assert!(draws_goal(51, 50));
    assert!(!draws_goal(99, 100));
}

#[test]
fn steer_stops_at_the_expansion_distance() {
    let p = planner(vec![], 3, 1, 1);
    let r = p.steer(&node(4, None, 0, 0), &node(0, None, 10, 0), 3, 9);
    assert_eq!(r.id, 9);
    assert_eq!(r.parent_id, Some(4));
    assert_eq!(r.path, vec![(0, 0), (1, 0), (2, 0), (3, 0)]);
    assert_eq!(r.point, (3, 0));
}

#[test]
fn steer_snaps_onto_a_target_within_reach() {
    let p = planner(vec![], 5, 1, 1);
    let r = p.steer(&node(0, None, 0, 0), &node(0, None, 2, 0), 5, 1);
    assert_eq!(r.path, vec![(0, 0), (1, 0), (2, 0), (2, 0)]);
    assert_eq!(r.point, (2, 0));
    let p = planner(vec![], 10, 2, 1);
    let r = p.steer(&node(0, None, 0, 0), &node(0, None, 3, 4), 10, 1);
    assert_eq!(r.path, vec![(0, 0), (1, 1), (2, 3), (3, 4)]);
    assert_eq!(r.point, (3, 4));
    let r = p.steer(&node(0, None, 0, 0), &node(0, None, -3, -4), 10, 1);
    assert_eq!(r.path, vec![(0, 0), (-1, -1), (-2, -3), (-3, -4)]);
    assert_eq!(r.point, (-3, -4));
}

#[test]
fn steer_toward_the_own_point_stays() {
    let p = planner(vec![], 5, 1, 1);
    let r = p.steer(&node(2, None, 5, 5), &node(0, None, 5, 5), 5, 3);
    assert_eq!(r.path, vec![(5, 5), (5, 5)]);
    assert_eq!(r.point, (5, 5));
    assert_eq!(r.parent_id, Some(2));
}

#[test]
fn steer_without_expansion_makes_no_step() {
    let p = planner(vec![], 0, 1, 1);
    let r = p.steer(&node(0, None, 0, 0), &node(0, None, 10, 0), 0, 1);
    assert_eq!(r.path, vec![(0, 0)]);
    assert_eq!(r.point, (0, 0));
    let r = p.steer(&node(0, None, 0, 0), &node(0, None, 10, 0), -4, 1);
    assert_eq!(r.path, vec![(0, 0)]);
    // a target within one step is still snapped onto
    let r = p.steer(&node(0, None, 0, 0), &node(0, None, 1, 0), 0, 1);
    assert_eq!(r.path, vec![(0, 0), (1, 0)]);
    assert_eq!(r.point, (1, 0));
}

#[test]
fn steer_rounds_every_step_toward_its_origin() {
    let p = planner(vec![], 100, 10, 1);
    let r = p.steer(&node(0, None, 0, 0), &node(0, None, 100, 37), 100, 1);
    // distance 106, ten steps of length 10, the target is then 6 away
    assert_eq!(r.path.len(), 12);
    assert_eq!(r.path[1], (9, 3));
    assert_eq!(r.path[5], (47, 17));
    assert_eq!(r.path[10], (94, 34));
    assert_eq!(r.path[11], (100, 37));
}

#[test]
fn random_samples_lie_in_the_area_or_on_the_goal() {
    let mut p = RRT::with_seed(
        (0, 0),
        (500, 500),
        vec![],
        10,
        1,
        50,
        10,
        RectangleBounds { min_pt: (100, 200), max_pt: (1100, 1300) },
        7,
    );
    let end = RRTNode::new((5000, 5000));
    let mut goals = 0;
    let mut xs = std::collections::BTreeSet::new();
    for _ in 0..200 {
        let s = p.get_random_node(&end);
        assert_eq!(s.id, 0);
        assert_eq!(s.parent_id, None);
        assert!(s.path.is_empty());
        if s.point == (5000, 5000) {
            goals += 1;
        } else {
            assert!(100 <= s.point.0 && s.point.0 < 1100);
            assert!(200 <= s.point.1 && s.point.1 < 1300);
            xs.insert(s.point.0);
        }
    }
    assert!(goals > 0);
    assert!(goals < 200);
    assert!(xs.len() > 10);
}

#[test]
fn a_rate_of_a_hundred_never_samples_the_goal() {
    let mut p = RRT::with_seed(
        (0, 0),
        (500, 500),
        vec![],
        10,
        1,
        100,
        10,
        RectangleBounds { min_pt: (0, 0), max_pt: (10, 10) },
        3,
    );
    let end = RRTNode::new((5000, 5000));
    for _ in 0..100 {
        assert!(p.get_random_node(&end).point != (5000, 5000));
    }
}

#[test]
fn grow_pushes_the_steered_node() {
    let mut p = planner(vec![], 3, 1, 1);
    p.node_list.push(RRTNode::new((0, 0)));
    assert!(p.grow(&RRTNode::new((10, 0))));
    assert_eq!(p.node_list.len(), 2);
    assert_eq!(p.node_list[1].id, 1);
    assert_eq!(p.node_list[1].parent_id, Some(0));
    assert_eq!(p.node_list[1].point, (3, 0));
    assert_eq!(p.node_list[1].path, vec![(0, 0), (1, 0), (2, 0), (3, 0)]);
    // the next edge starts from the nearest node
    assert!(p.grow(&RRTNode::new((3, 2))));
    assert_eq!(p.node_list[2].parent_id, Some(1));
    assert_eq!(p.node_list[2].point, (3, 2));
}

#[test]
fn grow_leaves_out_a_node_in_an_obstacle() {
    let wall = CircleBounds { center_pt: (3, 0), radius: 1 };
    let mut p = planner(vec![&wall], 3, 1, 1);
    p.node_list.push(RRTNode::new((0, 0)));
    assert!(!p.grow(&RRTNode::new((10, 0))));
    assert_eq!(p.node_list.len(), 1);
}

#[test]
fn grow_leaves_out_a_barred_edge() {
    // the end lies outside the circle, the line to it passes through
    let wall = CircleBounds { center_pt: (2, 0), radius: 1 };
    let mut p = planner(vec![&wall], 5, 1, 1);
    p.node_list.push(RRTNode::new((0, 0)));
    assert!(!p.grow(&RRTNode::new((10, 0))));
    assert_eq!(p.node_list.len(), 1);
    // an edge whose line stays clear of the circle is taken
    assert!(p.grow(&RRTNode::new((0, 10))));
    assert_eq!(p.node_list[1].point, (0, 5));
}

#[test]
fn grow_leaves_out_a_node_that_fails_the_area_test() {
    let mut p = RRT::with_seed(
        (0, 0),
        (10, 0),
        vec![],
        3,
        1,
        10,
        10,
        RectangleBounds { min_pt: (20, 20), max_pt: (-20, -20) },
        1,
    );
    p.node_list.push(RRTNode::new((0, 0)));
    assert!(!p.grow(&RRTNode::new((10, 0))));
    assert_eq!(p.node_list.len(), 1);
}

#[test]
fn connect_goal_puts_a_last_node_on_the_goal() {
    let mut p = planner(vec![], 3, 1, 1);
    p.node_list.push(RRTNode::new((0, 0)));
    assert!(!p.connect_goal());
    assert_eq!(p.node_list.len(), 1);
    p.node_list.push(node(1, Some(0), 8, 2));
    assert!(p.connect_goal());
    assert_eq!(p.node_list.len(), 3);
    assert_eq!(p.node_list[2].id, 2);
    assert_eq!(p.node_list[2].parent_id, Some(1));
    assert_eq!(p.node_list[2].point, (10, 0));
    assert_eq!(p.node_list[2].path[0], (8, 2));
}

#[test]
fn connect_goal_does_not_examine_the_last_node() {
    let wall = CircleBounds { center_pt: (10, 0), radius: 1 };
    let mut p = planner(vec![&wall], 3, 1, 1);
    p.node_list.push(RRTNode::new((0, 0)));
    p.node_list.push(node(1, Some(0), 8, 0));
    assert!(p.connect_goal());
    assert_eq!(p.node_list[2].point, (10, 0));
}

#[test]
fn get_path_leads_from_the_node_to_the_root() {
    let mut p = planner(vec![], 3, 1, 1);
    p.node_list.push(RRTNode::new((0, 0)));
    p.node_list.push(node(1, Some(0), 3, 0));
    p.node_list.push(node(2, Some(0), 0, 3));
    p.node_list.push(node(3, Some(1), 6, 0));
    let leaf = node(3, Some(1), 6, 0);
    assert_eq!(p.get_path(&leaf, vec![]), vec![(6, 0), (3, 0), (0, 0)]);
    assert_eq!(p.get_path(&leaf, vec![(7, 7)]), vec![(7, 7), (6, 0), (3, 0), (0, 0)]);
    assert_eq!(p.get_path(&RRTNode::new((0, 0)), vec![]), vec![(0, 0)]);
}

fn check_tree(p: &RRT) {
    let nodes = &p.node_list;
    assert_eq!(nodes[0].id, 0);
    assert_eq!(nodes[0].parent_id, None);
    assert_eq!(nodes[0].point, p.start);
    for (i, n) in nodes.iter().enumerate() {
        assert_eq!(n.id, i);
        if i > 0 {
            let parent = n.parent_id.unwrap();
            assert!(parent < i);
            assert_eq!(n.path[0], nodes[parent].point);
            assert_eq!(*n.path.last().unwrap(), n.point);
        }
        // the way up reaches the root in no more steps than the tree has nodes
        let mut at = i;
        let mut steps = 0;
        while let Some(up) = nodes[at].parent_id {
            at = up;
            steps += 1;
            assert!(steps <= nodes.len());
        }
        assert_eq!(at, 0);
    }
}

#[test]
fn plan_without_obstacles_returns_the_path_goal_first() {
    for seed in 0..5 {
        let mut p = planner(vec![], 1, 1, seed);
        let path = p.plan().unwrap();
        assert_eq!(path.0[0], (10, 0));
        assert_eq!(*path.0.last().unwrap(), (0, 0));
        assert!(path.0.len() <= p.node_list.len());
        check_tree(&p);
        let last = p.node_list.last().unwrap();
        assert_eq!(last.point, (10, 0));
        assert_eq!(last.parent_id, Some(p.node_list.len() - 2));
    }
}

#[test]
fn plan_in_finer_units_returns_the_path_goal_first() {
    let mut p = RRT::with_seed(
        (0, 0),
        (10000, 0),
        vec![],
        1000,
        200,
        10,
        5000,
        RectangleBounds { min_pt: (-2000, -2000), max_pt: (12000, 3000) },
        11,
    );
    let path = p.planning().unwrap();
    assert_eq!(path.0[0], (10000, 0));
    assert_eq!(*path.0.last().unwrap(), (0, 0));
    check_tree(&p);
    for pair in path.0.windows(2) {
        assert!(distance(&pair[0], &pair[1]) <= 1000);
    }
}

#[test]
fn plan_around_an_obstacle_keeps_every_node_clear() {
    let wall = CircleBounds { center_pt: (5000, 0), radius: 1500 };
    let obstacles: Vec<&dyn Collision> = vec![&wall];
    let mut p = RRT::with_seed(
        (0, 0),
        (10000, 0),
        vec![&wall],
        800,
        100,
        30,
        20000,
        RectangleBounds { min_pt: (-1000, -6000), max_pt: (11000, 6000) },
        5,
    );
    let result = p.plan();
    check_tree(&p);
    let checked = if result.is_some() { p.node_list.len() - 1 } else { p.node_list.len() };
    for i in 1..checked {
        let n = &p.node_list[i];
        let from = p.node_list[n.parent_id.unwrap()].point;
        assert!(!any_collision(&obstacles, &n.point));
        assert!(!any_collision_segment(&obstacles, &from, &n.point));
    }
    if let Some(path) = result {
        assert_eq!(path.0[0], (10000, 0));
        assert_eq!(*path.0.last().unwrap(), (0, 0));
    }
}

#[test]
fn plan_without_rounds_finds_nothing() {
    let mut p = RRT::with_seed((0, 0), (1, 0), vec![], 5, 1, 10, 0, area(), 1);
    assert!(p.plan().is_none());
    assert_eq!(p.node_list.len(), 1);
    assert_eq!(p.node_list[0].point, (0, 0));
}

#[test]
fn plan_out_of_reach_uses_every_round() {
    // every candidate lies in the obstacle, so the tree never grows
    let wall = CircleBounds { center_pt: (0, 0), radius: 1000 };
    let mut p = RRT::with_seed(
        (0, 0),
        (100, 0),
        vec![&wall],
        5,
        1,
        10,
        50,
        RectangleBounds { min_pt: (-200, -200), max_pt: (200, 200) },
        1,
    );
    assert!(p.plan().is_none());
    assert_eq!(p.node_list.len(), 1);
}

#[test]
fn plan_stops_short_of_a_goal_it_cannot_reach_in_time() {
    let mut p = RRT::with_seed(
        (0, 0),
        (1000, 0),
        vec![],
        5,
        1,
        10,
        20,
        RectangleBounds { min_pt: (-200, -200), max_pt: (1200, 200) },
        1,
    );
    assert!(p.plan().is_none());
    assert_eq!(p.node_list.len(), 21);
    check_tree(&p);
}

#[test]
fn planner_collision_tests_go_through_every_obstacle() {
    let a = CircleBounds { center_pt: (0, 0), radius: 2 };
    let b = CircleBounds { center_pt: (10, 0), radius: 2 };
    let p = planner(vec![&a, &b], 1, 1, 1);
    assert_eq!(p.obstacles().len(), 2);
    assert!(p.is_collision(&(1, 1)));
    assert!(p.is_collision(&(10, 2)));
    assert!(!p.is_collision(&(5, 0)));
    assert!(p.is_collision_segment(&(-5, 1), &(-1, 1)));
    assert!(!p.is_collision_segment(&(-5, 5), &(20, 5)));
    let free = planner(vec![], 1, 1, 1);
    assert!(!free.is_collision(&(0, 0)));
    assert!(!free.is_collision_segment(&(0, 0), &(5, 5)));
}

#[test]
fn entropy_seeded_planner_plans_too() {
    let mut p = RRT::new((0, 0), (10, 0), vec![], 1, 1, 10, 5000, area());
    let path = p.plan().unwrap();
    assert_eq!(path.0[0], (10, 0));
    assert_eq!(*path.0.last().unwrap(), (0, 0));
    let n = RRTNode::new((0, 0));
    assert_eq!(n.distance_between_pos((0, 0)), 0);
}

#[test]
fn configuration_numbers_are_tested_for_their_range() {
    assert!(planner(vec![], 1, 1, 1).numbers_in_range());
    assert!(!planner(vec![], 1, 0, 1).numbers_in_range());
    assert!(!planner(vec![], 1, -3, 1).numbers_in_range());
    let mut p = planner(vec![], 1, 1, 1);
    p.explore_area = RectangleBounds { min_pt: (0, 0), max_pt: (0, 5) };
    assert!(!p.numbers_in_range());
    let mut p = planner(vec![], 1, 1, 1);
    p.goal = (1 << 40, 0);
    assert!(!p.numbers_in_range());
}

#[test]
fn sample_is_the_goal_where_the_draw_exceeds_the_rate() {
    let at_goal = sample_node(51, 50, (7, 8), (1, 2));
    assert_eq!(at_goal.point, (7, 8));
    assert_eq!(at_goal.id, 0);
    assert_eq!(at_goal.parent_id, None);
    assert!(at_goal.path.is_empty());
    assert_eq!(sample_node(50, 50, (7, 8), (1, 2)).point, (1, 2));
    assert_eq!(sample_node(0, 0, (7, 8), (1, 2)).point, (1, 2));
    assert_eq!(sample_node(1, 0, (7, 8), (1, 2)).point, (7, 8));
    assert_eq!(sample_node(99, 99, (7, 8), (1, 2)).point, (1, 2));
    assert_eq!(sample_node(99, 100, (7, 8), (1, 2)).point, (1, 2));
}

#[test]
fn steered_edge_is_bounded_by_the_expansion_distance_and_one_step() {
    // one whole step of 7 within the expansion distance 10, and the target one step beyond
    let p = planner(vec![], 10, 7, 1);
    let r = p.steer(&node(0, None, 0, 0), &node(0, None, 14, 0), 10, 1);
    assert_eq!(r.path, vec![(0, 0), (7, 0), (14, 0)]);
    assert_eq!(distance(&(0, 0), &r.point), 14);
    // three whole steps of 3, and the target far beyond
    let p = planner(vec![], 10, 3, 1);
    let r = p.steer(&node(0, None, 0, 0), &node(0, None, 30, 40), 10, 1);
    assert_eq!(r.path, vec![(0, 0), (1, 2), (3, 4), (5, 7)]);
    assert_eq!(distance(&(0, 0), &r.point), 8);
    for x in -40..40 {
        for y in [-33, -2, 0, 1, 17, 40] {
            for (expand, res) in [(10, 3), (10, 7), (1, 1), (0, 5), (25, 4)] {
                let p = planner(vec![], expand, res, 1);
                let r = p.steer(&node(0, None, 0, 0), &node(0, None, x, y), expand, 1);
                let far = distance(&(0, 0), &r.point) as i64;
                assert!(far <= expand + res);
                assert!(r.point == (x, y) || far <= expand);
            }
        }
    }
}
