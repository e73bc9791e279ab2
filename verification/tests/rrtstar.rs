use rrt_merci::bound::{CircleBounds, Collision, RectangleBounds};
use rrt_merci::math::distance;
use rrt_merci::planner::Planner;
use rrt_merci::rrtnode::{Node, RRTNode, RRTStarNode};
use rrt_merci::logarithm::{artanh_series, ln_fixed, LN_SCALE, LN_SLACK};
use rrt_merci::rrtstar::{near_radius_of, RRTStar};

fn area() -> RectangleBounds {
    RectangleBounds { min_pt: (-1000, -1000), max_pt: (1000, 1000) }
}

fn planner<'a>(
    goal: (i64, i64),
    obstacles: Vec<&'a dyn Collision>,
    expand_dis: i64,
    path_resolution: i64,
    connect_circle_dist: i64,
) -> RRTStar<'a> {
    RRTStar::with_seed(
        (0, 0),
        goal,
        obstacles,
        expand_dis,
        path_resolution,
        10,
        100,
        area(),
        connect_circle_dist,
        true,
        1,
    )
}

fn star(id: usize, parent: Option<(usize, (i64, i64))>, at: (i64, i64), cost: u64) -> RRTStarNode {
    let (parent_id, path) = match parent {
        Some((p, from)) => (Some(p), vec![from, at]),
        None => (None, vec![]),
    };
    RRTStarNode { node: RRTNode { id, parent_id, point: at, path }, cost }
}

fn check_tree(p: &RRTStar) {
    let nodes = p.node_tree.node_list();
    assert_eq!(nodes.len(), p.node_tree.len());
    assert_eq!(nodes[0].id(), 0);
    assert_eq!(nodes[0].parent_id(), None);
    assert_eq!(nodes[0].point(), p.rrt.start);
    assert_eq!(nodes[0].cost, 0);
    for (i, n) in nodes.iter().enumerate() {
        assert_eq!(n.id(), i);
        if i > 0 {
            let parent = p.node_tree.get(n.parent_id().unwrap()).unwrap();
            assert_eq!(n.cost, parent.cost + distance(&n.point(), &parent.point()));
            assert_eq!(n.node.path[0], parent.point());
            assert_eq!(*n.node.path.last().unwrap(), n.point());
        }
        let mut at = *n;
        let mut steps = 0;
        while let Some(up) = at.parent_id() {
            at = p.node_tree.get(up).unwrap();
            steps += 1;
            assert!(steps <= nodes.len());
        }
        assert_eq!(at.id(), 0);
        for other in nodes.iter().skip(i + 1) {
            assert!(other.point() != n.point());
        }
    }
}

#[test]
fn new_star_planner_keeps_its_configuration() {
    let p = RRTStar::new((1, 2), (3, 4), vec![], 5, 6, 7, 8, area(), 9, true);
    assert_eq!(p.rrt.start, (1, 2));
    assert_eq!(p.rrt.goal, (3, 4));
    assert_eq!(p.rrt.expand_dis, 5);
    assert_eq!(p.rrt.path_resolution, 6);
    assert_eq!(p.rrt.goal_sample_rate, 7);
    assert_eq!(p.rrt.max_iter, 8);
    assert_eq!(p.connect_circle_dist, 9);
    assert!(p.search_until_max);
    assert_eq!(p.unit, 1);
    assert_eq!(p.node_tree.len(), 0);
    assert_eq!(p.obstacles().len(), 0);
}

#[test]
fn star_random_samples_cost_nothing() {
    let mut p = planner((5000, 5000), vec![], 10, 1, 100);
    let end = RRTNode::new((5000, 5000));
    let mut seen = std::collections::BTreeSet::new();
    for _ in 0..100 {
        let s = p.get_random_node(&end);
        assert_eq!(s.cost, 0);
        assert_eq!(s.id(), 0);
        assert_eq!(s.parent_id(), None);
        if s.point() != (5000, 5000) {
            assert!(-1000 <= s.point().0 && s.point().0 < 1000);
            assert!(-1000 <= s.point().1 && s.point().1 < 1000);
        }
        seen.insert(s.point());
    }
    assert!(seen.len() > 5);
}

#[test]
fn new_cost_adds_the_distance() {
    let p = planner((100, 100), vec![], 100, 5, 1000);
    let a = star(0, None, (0, 0), 7);
    let b = star(1, None, (3, 4), 100);
    assert_eq!(p.calc_new_cost(&a, &b), 12);
    assert_eq!(p.calc_new_cost(&b, &a), 105);
}

#[test]
fn near_radius_shrinks_with_the_tree() {
    let mut p = planner((100, 100), vec![], 1000000, 5, 1000);
    p.node_tree.add_node(star(0, None, (0, 0), 0)).unwrap();
    // two nodes counted: 1000 * sqrt(ln(2) / 2) = 588
    assert_eq!(p.find_near_nodes(&star(1, None, (24, 3), 0)), vec![0]);
    assert_eq!(p.find_near_nodes(&star(1, None, (24, 4), 0)), Vec::<usize>::new());
    for i in 1..7 {
        p.node_tree.add_node(star(i, Some((0, (0, 0))), (500 + i as i64, 500), 700)).unwrap();
    }
    // eight nodes counted: 1000 * sqrt(ln(8) / 8) = 509
    assert_eq!(p.find_near_nodes(&star(7, None, (22, 5), 0)), vec![0]);
    assert_eq!(p.find_near_nodes(&star(7, None, (22, 6), 0)), Vec::<usize>::new());
}

#[test]
fn near_radius_follows_the_logarithm_between_the_powers_of_two() {
    let mut p = planner((100, 100), vec![], 1000000, 5, 1000);
    p.node_tree.add_node(star(0, None, (0, 0), 0)).unwrap();
    p.node_tree.add_node(star(1, Some((0, (0, 0))), (500, 500), 708)).unwrap();
    // three nodes counted: 1000 * sqrt(ln(3) / 3) = 605
    assert_eq!(p.find_near_nodes(&star(2, None, (8, 23), 0)), vec![0]);
    assert_eq!(p.find_near_nodes(&star(2, None, (11, 22), 0)), vec![0]);
    assert_eq!(p.find_near_nodes(&star(2, None, (9, 23), 0)), Vec::<usize>::new());
}

#[test]
fn near_radius_is_the_whole_part_of_the_formula() {
    assert_eq!(near_radius_of(1000, 1000000, 2), 588);
    assert_eq!(near_radius_of(1000, 1000000, 3), 605);
    assert_eq!(near_radius_of(1000, 1000000, 5), 567);
    assert_eq!(near_radius_of(1000, 1000000, 8), 509);
    assert_eq!(near_radius_of(12345, 1000000, 1000), 1026);
    assert_eq!(near_radius_of(1 << 31, i64::MAX, 2), 1264234385);
    assert_eq!(near_radius_of(1 << 31, i64::MAX, 3), 1299545424);
    assert_eq!(near_radius_of(1000, 1000000, 1), 0);
    assert_eq!(near_radius_of(1000, 600, 3), 600);
    assert_eq!(near_radius_of(-1000, 1000000, 3), -605);
    assert_eq!(near_radius_of(0, 1000000, 3), 0);
}

#[test]
fn logarithm_in_fixed_point_stays_just_below_the_logarithm() {
    assert_eq!(ln_fixed(1), 0);
    let cases: [(u64, u128); 6] = [
        (2, 693147180559945309),
        (3, 1098612288668109691),
        (10, 2302585092994045684),
        (1000, 6907755278982137052),
        (4294967296, 22180709777918249901),
        (8589934592, 22873856958478195210),
    ];
    for (n, whole) in cases {
        let got = ln_fixed(n);
        assert!(got <= whole);
        assert!(whole - got <= LN_SLACK);
    }
    assert_eq!(artanh_series(0), 0);
    assert_eq!(2 * artanh_series(LN_SCALE / 3), ln_fixed(2));
}

#[test]
fn near_radius_is_capped_by_the_expansion_distance() {
    let mut p = planner((100, 100), vec![], 500, 5, 1000);
    p.node_tree.add_node(star(0, None, (0, 0), 0)).unwrap();
    assert_eq!(p.find_near_nodes(&star(1, None, (22, 4), 0)), vec![0]);
    assert_eq!(p.find_near_nodes(&star(1, None, (22, 5), 0)), Vec::<usize>::new());
}

#[test]
fn negative_connect_distance_finds_no_neighbour() {
    let mut p = planner((100, 100), vec![], 500, 5, -1000);
    p.node_tree.add_node(star(0, None, (0, 0), 0)).unwrap();
    assert_eq!(p.find_near_nodes(&star(1, None, (0, 0), 0)), Vec::<usize>::new());
}

fn two_node_tree<'a>(obstacles: Vec<&'a dyn Collision>) -> RRTStar<'a> {
    let mut p = planner((100, 100), obstacles, 100, 5, 1000);
    p.node_tree.add_node(star(0, None, (0, 0), 0)).unwrap();
    p.node_tree.add_node(star(1, Some((0, (0, 0))), (10, 0), 10)).unwrap();
    p
}

#[test]
fn choose_parent_takes_the_cheapest_offer() {
    let p = two_node_tree(vec![]);
    let candidate = star(2, Some((1, (10, 0))), (10, 10), 20);
    let chosen = p.choose_parent(&candidate, &vec![0, 1], 2).unwrap();
    assert_eq!(chosen.node.id, 2);
    assert_eq!(chosen.node.parent_id, Some(0));
    assert_eq!(chosen.cost, 14);
    assert_eq!(chosen.node.point, (10, 10));
    assert_eq!(chosen.node.path, vec![(0, 0), (3, 3), (7, 7), (10, 10)]);
    // the order of the neighbours does not matter where the costs differ
    let chosen = p.choose_parent(&candidate, &vec![1, 0], 2).unwrap();
    assert_eq!(chosen.node.parent_id, Some(0));
    let chosen = p.choose_parent(&candidate, &vec![1], 5).unwrap();
    assert_eq!(chosen.node.id, 5);
    assert_eq!(chosen.node.parent_id, Some(1));
    assert_eq!(chosen.cost, 20);
    assert_eq!(chosen.node.path, vec![(10, 0), (10, 5), (10, 10), (10, 10)]);
}

#[test]
fn choose_parent_leaves_out_a_barred_edge() {
    let wall = CircleBounds { center_pt: (5, 5), radius: 2 };
    let p = two_node_tree(vec![&wall]);
    let candidate = star(2, Some((1, (10, 0))), (10, 10), 20);
    let chosen = p.choose_parent(&candidate, &vec![0, 1], 2).unwrap();
    assert_eq!(chosen.node.parent_id, Some(1));
    assert_eq!(chosen.cost, 20);
}

#[test]
fn choose_parent_finds_none_where_every_edge_is_left_out() {
    let wall = CircleBounds { center_pt: (10, 10), radius: 1 };
    let p = two_node_tree(vec![&wall]);
    let candidate = star(2, Some((1, (10, 0))), (10, 10), 20);
    assert!(p.choose_parent(&candidate, &vec![0, 1], 2).is_none());
    let free = two_node_tree(vec![]);
    assert!(free.choose_parent(&candidate, &vec![], 2).is_none());
}

#[test]
fn choose_parent_takes_the_first_of_equal_offers() {
    let mut p = planner((100, 100), vec![], 100, 5, 1000);
    p.node_tree.add_node(star(0, None, (0, 0), 0)).unwrap();
    p.node_tree.add_node(star(1, Some((0, (0, 0))), (20, 0), 20)).unwrap();
    p.node_tree.add_node(star(2, Some((0, (0, 0))), (0, 20), 20)).unwrap();
    let candidate = star(3, None, (20, 20), 0);
    assert_eq!(p.choose_parent(&candidate, &vec![2, 1], 3).unwrap().node.parent_id, Some(2));
    assert_eq!(p.choose_parent(&candidate, &vec![1, 2], 3).unwrap().node.parent_id, Some(1));
}

fn chain<'a>(obstacles: Vec<&'a dyn Collision>) -> (RRTStar<'a>, RRTStarNode) {
    let mut p = planner((500, 500), obstacles, 100, 10, 1000);
    p.node_tree.add_node(star(0, None, (0, 0), 0)).unwrap();
    p.node_tree.add_node(star(1, Some((0, (0, 0))), (0, 40), 40)).unwrap();
    p.node_tree.add_node(star(2, Some((1, (0, 40))), (30, 40), 70)).unwrap();
    p.node_tree.add_node(star(3, Some((2, (30, 40))), (60, 40), 100)).unwrap();
    p.node_tree.add_node(star(4, Some((3, (60, 40))), (60, 70), 130)).unwrap();
    let new = star(5, Some((0, (0, 0))), (30, 10), 31);
    p.node_tree.add_node(new.clone()).unwrap();
    (p, new)
}

#[test]
fn rewire_lowers_the_costs_of_the_whole_subtree() {
    let (mut p, new) = chain(vec![]);
    check_tree(&p);
    p.rewire(&new, &vec![2]);
    let n2 = p.node_tree.get(2).unwrap();
    assert_eq!(n2.node.parent_id, Some(5));
    assert_eq!(n2.cost, 61);
    assert_eq!(n2.node.point, (30, 40));
    assert_eq!(n2.node.id, 2);
    assert_eq!(n2.node.path, vec![(30, 10), (30, 20), (30, 30), (30, 40), (30, 40)]);
    assert_eq!(p.node_tree.get(3).unwrap().cost, 91);
    assert_eq!(p.node_tree.get(3).unwrap().node.parent_id, Some(2));
    assert_eq!(p.node_tree.get(4).unwrap().cost, 121);
    assert_eq!(p.node_tree.get(1).unwrap().cost, 40);
    assert_eq!(p.node_tree.get(5).unwrap().cost, 31);
    assert_eq!(p.node_tree.get(0).unwrap().cost, 0);
    assert_eq!(p.node_tree.len(), 6);
    check_tree(&p);
}

#[test]
fn rewire_takes_the_neighbours_in_turn() {
    let (mut p, new) = chain(vec![]);
    p.rewire(&new, &vec![1, 2, 3]);
    assert_eq!(p.node_tree.get(1).unwrap().node.parent_id, Some(0));
    assert_eq!(p.node_tree.get(1).unwrap().cost, 40);
    assert_eq!(p.node_tree.get(2).unwrap().node.parent_id, Some(5));
    assert_eq!(p.node_tree.get(2).unwrap().cost, 61);
    assert_eq!(p.node_tree.get(3).unwrap().node.parent_id, Some(5));
    assert_eq!(p.node_tree.get(3).unwrap().cost, 73);
    assert_eq!(p.node_tree.get(4).unwrap().node.parent_id, Some(3));
    assert_eq!(p.node_tree.get(4).unwrap().cost, 103);
    check_tree(&p);
}

#[test]
fn rewire_leaves_a_barred_neighbour() {
    let wall = CircleBounds { center_pt: (30, 25), radius: 3 };
    let (mut p, new) = chain(vec![&wall]);
    p.rewire(&new, &vec![2]);
    assert_eq!(p.node_tree.get(2).unwrap().node.parent_id, Some(1));
    assert_eq!(p.node_tree.get(2).unwrap().cost, 70);
    assert_eq!(p.node_tree.get(3).unwrap().cost, 100);
    check_tree(&p);
}

#[test]
fn rewire_leaves_a_neighbour_that_gains_nothing() {
    let (mut p, new) = chain(vec![]);
    p.rewire(&new, &vec![1, 0, 5]);
    assert_eq!(p.node_tree.get(1).unwrap().node.parent_id, Some(0));
    assert_eq!(p.node_tree.get(0).unwrap().node.parent_id, None);
    assert_eq!(p.node_tree.get(5).unwrap().node.parent_id, Some(0));
    check_tree(&p);
}

#[test]
fn rewire_leaves_a_neighbour_out_of_reach() {
    let mut p = planner((500, 500), vec![], 10, 10, 1000);
    p.node_tree.add_node(star(0, None, (0, 0), 0)).unwrap();
    p.node_tree.add_node(star(1, Some((0, (0, 0))), (0, 40), 40)).unwrap();
    p.node_tree.add_node(star(2, Some((1, (0, 40))), (30, 40), 70)).unwrap();
    let new = star(3, Some((0, (0, 0))), (30, 10), 31);
    p.node_tree.add_node(new.clone()).unwrap();
    // the way through the new node is shorter, but an edge of length 10 ends short of it
    p.rewire(&new, &vec![2]);
    assert_eq!(p.node_tree.get(2).unwrap().node.parent_id, Some(1));
    assert_eq!(p.node_tree.get(2).unwrap().cost, 70);
    // an edge of length 20 ends one step short, and is put onto the node
    p.rrt.expand_dis = 20;
    p.rewire(&new, &vec![2]);
    assert_eq!(p.node_tree.get(2).unwrap().node.parent_id, Some(3));
    assert_eq!(p.node_tree.get(2).unwrap().cost, 61);
}

#[test]
fn parent_edge_test_looks_at_the_line_from_the_parent() {
    let wall = CircleBounds { center_pt: (5, 0), radius: 1 };
    let p = two_node_tree(vec![&wall]);
    let barred = star(2, Some((0, (0, 0))), (20, 0), 20);
    assert!(p.is_collision_parent(&barred));
    assert!(p.is_collision_parent_rrt(&barred.node));
    let clear = star(2, Some((1, (10, 0))), (10, 30), 40);
    assert!(!p.is_collision_parent(&clear));
    let orphan = star(2, None, (5, 0), 0);
    assert!(!p.is_collision_parent(&orphan));
    assert!(p.is_collision(&(5, 1)));
    assert!(!p.is_collision(&(5, 2)));
}

fn goal_tree<'a>(obstacles: Vec<&'a dyn Collision>, detour: bool) -> RRTStar<'a> {
    let mut p = planner((100, 0), obstacles, 25, 1, 1000);
    p.node_tree.add_node(star(0, None, (0, 0), 0)).unwrap();
    if detour {
        p.node_tree.add_node(star(1, Some((3, (0, 50))), (97, 0), 159)).unwrap();
    } else {
        p.node_tree.add_node(star(1, Some((0, (0, 0))), (97, 0), 97)).unwrap();
    }
    p.node_tree.add_node(star(2, Some((0, (0, 0))), (100, 4), 100)).unwrap();
    p.node_tree.add_node(star(3, Some((0, (0, 0))), (0, 50), 50)).unwrap();
    p.node_tree.add_node(star(4, Some((0, (0, 0))), (90, 0), 90)).unwrap();
    p
}

#[test]
fn best_goal_node_is_the_cheapest_within_reach() {
    assert_eq!(goal_tree(vec![], false).search_best_goal_node(), Some(1));
    assert_eq!(goal_tree(vec![], true).search_best_goal_node(), Some(2));
}

#[test]
fn best_goal_node_needs_a_free_goal() {
    let wall = CircleBounds { center_pt: (100, 0), radius: 1 };
    assert_eq!(goal_tree(vec![&wall], false).search_best_goal_node(), None);
}

#[test]
fn best_goal_node_needs_a_free_edge_to_the_goal() {
    // the line from (97, 0) to the goal touches the circle, the line from (100, 4) does not
    let wall = CircleBounds { center_pt: (90, -3), radius: 3 };
    assert_eq!(goal_tree(vec![&wall], false).search_best_goal_node(), Some(2));
}

#[test]
fn best_goal_node_needs_a_node_within_reach() {
    let mut p = planner((100, 0), vec![], 25, 1, 1000);
    p.node_tree.add_node(star(0, None, (0, 0), 0)).unwrap();
    p.node_tree.add_node(star(1, Some((0, (0, 0))), (94, 0), 94)).unwrap();
    // the squared distance 36 is beyond the radius 25
    assert_eq!(p.search_best_goal_node(), None);
}

#[test]
fn star_grow_joins_a_node_and_reports_the_goal_in_reach() {
    let mut p = planner((100, 0), vec![], 10, 1, 1000);
    p.node_tree.add_node(star(0, None, (0, 0), 0)).unwrap();
    assert!(!p.grow(&star(0, None, (50, 0), 0)));
    assert_eq!(p.node_tree.len(), 2);
    let n1 = p.node_tree.get(1).unwrap();
    assert_eq!(n1.node.point, (10, 0));
    assert_eq!(n1.node.parent_id, Some(0));
    assert_eq!(n1.cost, 10);
    assert!(!p.grow(&star(0, None, (10, 3), 0)));
    let n2 = p.node_tree.get(2).unwrap();
    assert_eq!(n2.node.point, (10, 3));
    assert_eq!(n2.node.parent_id, Some(1));
    assert_eq!(n2.cost, 13);
    assert_eq!(n2.node.path, vec![(10, 0), (10, 1), (10, 2), (10, 3), (10, 3)]);
    check_tree(&p);
}

#[test]
fn star_grow_keeps_the_tree_when_the_point_is_taken() {
    let mut p = planner((100, 0), vec![], 10, 1, 1000);
    p.node_tree.add_node(star(0, None, (0, 0), 0)).unwrap();
    p.grow(&star(0, None, (50, 0), 0));
    p.grow(&star(0, None, (10, 3), 0));
    assert_eq!(p.node_tree.len(), 3);
    p.grow(&star(0, None, (10, 3), 0));
    assert_eq!(p.node_tree.len(), 3);
    assert!(p.node_tree.get(3).is_none());
    check_tree(&p);
}

#[test]
fn star_grow_leaves_out_a_candidate_in_an_obstacle() {
    let wall = CircleBounds { center_pt: (10, 0), radius: 2 };
    let mut p = planner((100, 0), vec![&wall], 10, 1, 1000);
    p.node_tree.add_node(star(0, None, (0, 0), 0)).unwrap();
    assert!(!p.grow(&star(0, None, (50, 0), 0)));
    assert_eq!(p.node_tree.len(), 1);
}

#[test]
fn star_grow_reports_a_candidate_near_the_goal() {
    let mut p = planner((15, 0), vec![], 10, 1, 1000);
    p.node_tree.add_node(star(0, None, (0, 0), 0)).unwrap();
    assert!(p.grow(&star(0, None, (50, 0), 0)));
}

#[test]
fn star_grow_rewires_through_the_new_node() {
    let mut p = planner((500, 500), vec![], 40, 10, 100000);
    p.node_tree.add_node(star(0, None, (0, 0), 0)).unwrap();
    p.node_tree.add_node(star(1, Some((0, (0, 0))), (-3, 0), 3)).unwrap();
    p.node_tree.add_node(star(2, Some((1, (-3, 0))), (0, 4), 8)).unwrap();
    p.node_tree.add_node(star(3, Some((2, (0, 4))), (3, 4), 11)).unwrap();
    p.node_tree.add_node(star(4, Some((3, (3, 4))), (3, 9), 16)).unwrap();
    check_tree(&p);
    // the node nearest to the sample is the root; the new node lies at (3, 0)
    p.grow(&star(0, None, (3, 0), 0));
    let new = p.node_tree.get(5).unwrap();
    assert_eq!(new.node.point, (3, 0));
    assert_eq!(new.node.parent_id, Some(0));
    assert_eq!(new.cost, 3);
    // the way to (3, 4) is shorter through the new node, and with it the way to (3, 9)
    assert_eq!(p.node_tree.get(3).unwrap().node.parent_id, Some(5));
    assert_eq!(p.node_tree.get(3).unwrap().cost, 7);
    assert_eq!(p.node_tree.get(4).unwrap().cost, 12);
    // the way to (0, 4) would be as long through the new node, and stays
    assert_eq!(p.node_tree.get(2).unwrap().node.parent_id, Some(1));
    assert_eq!(p.node_tree.get(2).unwrap().cost, 8);
    check_tree(&p);
}

#[test]
fn star_plan_keeps_the_costs_adding_up() {
    for seed in 0..4 {
        let mut p = RRTStar::with_seed(
            (0, 0),
            (200, 0),
            vec![],
            30,
            5,
            30,
            250,
            RectangleBounds { min_pt: (-50, -100), max_pt: (250, 100) },
            2000,
            true,
            seed,
        );
        let result = p.plan();
        check_tree(&p);
        assert!(p.node_tree.len() <= 251);
        let path = result.unwrap();
        assert_eq!(*path.0.last().unwrap(), (0, 0));
        assert!(path.0.len() <= p.node_tree.len());
        // the path begins at a node within reach of the goal
        let dx = path.0[0].0 - 200;
        let dy = path.0[0].1;
        assert!(dx * dx + dy * dy <= 30);
    }
}

#[test]
fn star_plan_between_obstacles_keeps_the_tree() {
    let a = CircleBounds { center_pt: (100, 0), radius: 30 };
    let b = RectangleBounds { min_pt: (140, 20), max_pt: (160, 60) };
    let mut p = RRTStar::with_seed(
        (0, 0),
        (200, 0),
        vec![&a, &b],
        30,
        5,
        30,
        300,
        RectangleBounds { min_pt: (-50, -100), max_pt: (250, 100) },
        2000,
        false,
        9,
    );
    let result = p.plan();
    check_tree(&p);
    for n in p.node_tree.node_list() {
        if n.id() > 0 {
            assert!(!p.is_collision(&n.point()));
        }
    }
    if let Some(path) = result {
        assert_eq!(*path.0.last().unwrap(), (0, 0));
    }
}

#[test]
fn star_plan_without_rounds_holds_the_root() {
    let mut p = RRTStar::with_seed((7, 7), (200, 0), vec![], 30, 5, 30, 0, area(), 2000, true, 1);
    assert!(p.plan().is_none());
    assert_eq!(p.node_tree.len(), 1);
    let root = p.node_tree.get(0).unwrap();
    assert_eq!(root.node.id, 0);
    assert_eq!(root.node.parent_id, None);
    assert_eq!(root.node.point, (7, 7));
    assert_eq!(root.cost, 0);
}

#[test]
fn star_plan_from_the_goal_returns_the_root_alone() {
    let mut p = RRTStar::with_seed((5, 5), (5, 5), vec![], 30, 5, 30, 0, area(), 2000, true, 1);
    let path = p.plan().unwrap();
    assert_eq!(path.0, vec![(5, 5)]);
}

#[test]
fn star_configuration_numbers_are_tested_for_their_range() {
    assert!(planner((100, 0), vec![], 10, 1, 1000).numbers_in_range());
    assert!(!planner((100, 0), vec![], 10, 0, 1000).numbers_in_range());
    assert!(!planner((100, 0), vec![], 10, 1, 1 << 40).numbers_in_range());
    assert!(planner((100, 0), vec![], 10, 1, -(1 << 31)).numbers_in_range());
    let mut p = planner((100, 0), vec![], 10, 1, 1000);
    p.unit = 1000;
    assert!(p.numbers_in_range());
    p.unit = 0;
    assert!(!p.numbers_in_range());
}

#[test]
fn logarithm_in_fixed_point_agrees_with_the_floating_one() {
    let mut n: u64 = 1;
    while n <= 8589934592 {
        let got = ln_fixed(n) as f64 / LN_SCALE as f64;
        assert!((got - (n as f64).ln()).abs() < 1e-12);
        n = if n < 3000 { n + 1 } else { n + n / 7 };
    }
    let got = ln_fixed(8589934592) as f64 / LN_SCALE as f64;
    assert!((got - 8589934592f64.ln()).abs() < 1e-12);
}

#[test]
fn near_radius_is_within_one_of_the_formula() {
    let connects: [i64; 7] = [0, 1, 7, 50, 1000, 123456, 2147483648];
    for connect in connects {
        let mut n: u64 = 2;
        while n <= 8589934592 {
            let r = near_radius_of(connect, i64::MAX, n) as f64;
            let exact = connect as f64 * ((n as f64).ln() / n as f64).sqrt();
            assert!(r <= exact + 1e-6);
            assert!(exact < r + 1.0 + 1e-6);
            n = if n < 300 { n + 1 } else { n + n / 5 };
        }
    }
}

#[test]
fn unit_of_length_scales_the_near_radius() {
    let mut p = planner((100, 100), vec![], 500, 5, 1000);
    p.unit = 2;
    p.node_tree.add_node(star(0, None, (0, 0), 0)).unwrap();
    // the radius 500 times the unit 2, against the squared distances 997 and 1010
    assert_eq!(p.find_near_nodes(&star(1, None, (31, 6), 0)), vec![0]);
    assert_eq!(p.find_near_nodes(&star(1, None, (31, 7), 0)), Vec::<usize>::new());
    p.unit = 0;
    assert_eq!(p.find_near_nodes(&star(1, None, (0, 0), 0)), vec![0]);
    assert_eq!(p.find_near_nodes(&star(1, None, (0, 1), 0)), Vec::<usize>::new());
    p.unit = -1;
    assert_eq!(p.find_near_nodes(&star(1, None, (0, 0), 0)), Vec::<usize>::new());
}

#[test]
fn unit_of_length_scales_the_reach_of_the_goal() {
    let mut p = planner((100, 0), vec![], 25, 1, 1000);
    p.node_tree.add_node(star(0, None, (0, 0), 0)).unwrap();
    p.node_tree.add_node(star(1, Some((0, (0, 0))), (94, 0), 94)).unwrap();
    // the squared distance 36 is beyond 25, and within 25 times 2
    assert_eq!(p.search_best_goal_node(), None);
    p.unit = 2;
    assert_eq!(p.search_best_goal_node(), Some(1));
}

#[test]
fn a_scene_plans_alike_in_a_finer_unit() {
    // the goal half a unit of length from the start, the expansion distance one unit,
    // no round of growth: counted in halves, in tenths and in thousandths
    for unit in [2, 10, 1000] {
        let far = RectangleBounds { min_pt: (-5 * unit, -5 * unit), max_pt: (5 * unit, 5 * unit) };
        let goal = (unit / 2, 0);
        let mut p = RRTStar::with_seed((0, 0), goal, vec![], unit, unit, 30, 0, far, 0, true, 1);
        p.unit = unit;
        let path = p.plan().unwrap();
        assert!(path.0.contains(&(0, 0)));
        assert_eq!(p.node_tree.len(), 1);
    }
    // counted in thousandths as if they were units of length, the goal is out of reach
    let far = RectangleBounds { min_pt: (-5000, -5000), max_pt: (5000, 5000) };
    let mut p = RRTStar::with_seed((0, 0), (500, 0), vec![], 1000, 1000, 30, 0, far, 0, true, 1);
    assert!(p.plan().is_none());
}
