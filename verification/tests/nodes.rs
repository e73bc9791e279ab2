use rrt_merci::rrtnode::{copy_points, Node, RRTNode, RRTStarNode};

fn node_at(id: usize, x: i64, y: i64) -> RRTNode {
    RRTNode { id, parent_id: None, point: (x, y), path: vec![] }
}

#[test]
fn new_node_has_no_parent_and_no_edge() {
    let n = RRTNode::new((3, -7));
    assert_eq!(n.id, 0);
    assert_eq!(n.parent_id, None);
    assert_eq!(n.point, (3, -7));
    assert!(n.path.is_empty());
    assert_eq!(n.id(), 0);
    assert_eq!(n.parent_id(), None);
    assert_eq!(n.point(), (3, -7));
}

#[test]
fn new_star_node_costs_nothing() {
    let n = RRTStarNode::new((1, 2));
    assert_eq!(n.cost, 0);
    assert_eq!(n.id(), 0);
    assert_eq!(n.parent_id(), None);
    assert_eq!(n.point(), (1, 2));
}

#[test]
fn node_distances_are_floored() {
    let a = node_at(0, 0, 0);
    let b = node_at(1, 3, 4);
    let c = node_at(2, 2, 2);
    assert_eq!(a.get_delta(&b), (-3, -4));
    assert_eq!(a.distance_between(&b), 5);
    assert_eq!(b.distance_between(&a), 5);
    assert_eq!(a.distance_between(&c), 2);
    assert_eq!(a.distance_between_pos((6, 8)), 10);
    assert_eq!(a.distance_between(&a), 0);
}

#[test]
fn star_node_distances_go_by_the_inner_node() {
    let a = RRTStarNode { node: node_at(0, 0, 0), cost: 5 };
    let b = RRTStarNode { node: node_at(1, 6, 8), cost: 9 };
    assert_eq!(b.get_delta(&a), (6, 8));
    assert_eq!(a.distance_between(&b), 10);
    assert_eq!(b.distance_between_pos((6, 0)), 8);
}

#[test]
fn nearest_node_of_an_empty_list_is_none() {
    let a = node_at(0, 0, 0);
    assert_eq!(a.get_nearest_node_index(&vec![]), None);
}

#[test]
fn nearest_node_is_the_first_of_the_nearest() {
    let list = vec![node_at(0, 0, 0), node_at(1, 3, 4), node_at(2, -3, 4), node_at(3, 9, 9)];
    let q = node_at(0, 0, 5);
    assert_eq!(q.get_nearest_node_index(&list), Some(1));
    let far = node_at(0, 10, 10);
    assert_eq!(far.get_nearest_node_index(&list), Some(3));
    let origin = node_at(0, 0, 1);
    assert_eq!(origin.get_nearest_node_index(&list), Some(0));
}

#[test]
fn nearest_node_goes_by_the_squared_distance() {
    // floored distances are both 4; the squared ones are 20 and 17
    let list = vec![node_at(0, 4, 2), node_at(1, 4, 1)];
    let q = node_at(0, 0, 0);
    assert_eq!(q.distance_between(&list[0]), 4);
    assert_eq!(q.distance_between(&list[1]), 4);
    assert_eq!(q.get_nearest_node_index(&list), Some(1));
}

#[test]
fn clone_keeps_every_value() {
    let n = RRTStarNode {
        node: RRTNode { id: 4, parent_id: Some(2), point: (7, 8), path: vec![(1, 1), (7, 8)] },
        cost: 42,
    };
    let c = n.clone();
    assert_eq!(c.cost, 42);
    assert_eq!(c.node.id, 4);
    assert_eq!(c.node.parent_id, Some(2));
    assert_eq!(c.node.point, (7, 8));
    assert_eq!(c.node.path, vec![(1, 1), (7, 8)]);
    assert_eq!(copy_points(&vec![(1, 2), (3, 4)]), vec![(1, 2), (3, 4)]);
}
