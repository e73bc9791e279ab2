use rrt_merci::math::COORD_LIMIT;
use rrt_merci::rrtnode::{Node, RRTNode, RRTStarNode};
use rrt_merci::tree::{IndexError, PathTree, SpatialIndex};

fn star(id: usize, parent: Option<usize>, x: i64, y: i64, cost: u64) -> RRTStarNode {
    RRTStarNode { node: RRTNode { id, parent_id: parent, point: (x, y), path: vec![] }, cost }
}

#[test]
fn index_takes_points_once() {
    let mut index = SpatialIndex::new();
    assert_eq!(index.size(), 0);
    assert_eq!(index.add(&(1, 2), 7), Ok(()));
    assert_eq!(index.add(&(3, 4), 8), Ok(()));
    assert_eq!(index.size(), 2);
    assert!(index.contains_point(&(1, 2)));
    assert!(!index.contains_point(&(2, 1)));
    assert_eq!(index.item_at(&(3, 4)), Some(8));
    assert_eq!(index.item_at(&(4, 3)), None);
}

#[test]
fn index_refuses_a_duplicate_coordinate() {
    let mut index = SpatialIndex::new();
    assert_eq!(index.add(&(1, 2), 7), Ok(()));
    assert_eq!(index.add(&(1, 2), 9), Err(IndexError::DuplicateCoordinate));
    assert_eq!(index.size(), 1);
    assert_eq!(index.item_at(&(1, 2)), Some(7));
}

#[test]
fn index_refuses_a_coordinate_out_of_range() {
    let mut index = SpatialIndex::new();
    assert_eq!(index.add(&(COORD_LIMIT + 1, 0), 1), Err(IndexError::CoordinateOutOfRange));
    assert_eq!(index.add(&(0, -COORD_LIMIT - 1), 1), Err(IndexError::CoordinateOutOfRange));
    assert_eq!(index.add(&(COORD_LIMIT, -COORD_LIMIT), 1), Ok(()));
    assert_eq!(index.size(), 1);
}

#[test]
fn index_remove_takes_the_matching_entry() {
    let mut index = SpatialIndex::new();
    index.add(&(1, 1), 1).unwrap();
    index.add(&(2, 2), 2).unwrap();
    index.add(&(3, 3), 3).unwrap();
    assert_eq!(index.remove(&(2, 2), 5), 0);
    assert_eq!(index.remove(&(5, 5), 2), 0);
    assert_eq!(index.size(), 3);
    assert_eq!(index.remove(&(2, 2), 2), 1);
    assert_eq!(index.entries, vec![((1, 1), 1), ((3, 3), 3)]);
    assert_eq!(index.remove(&(2, 2), 2), 0);
}

#[test]
fn index_nearest_one_gives_squared_distance_and_item() {
    let mut index = SpatialIndex::new();
    assert_eq!(index.nearest_one(&(0, 0)), None);
    index.add(&(0, 0), 10).unwrap();
    index.add(&(3, 4), 11).unwrap();
    index.add(&(-3, 4), 12).unwrap();
    assert_eq!(index.nearest_one(&(0, 5)), Some((10, 11)));
    assert_eq!(index.nearest_one(&(0, 1)), Some((1, 10)));
    assert_eq!(index.nearest_one(&(-3, 4)), Some((0, 12)));
}

#[test]
fn index_within_compares_the_radius_with_the_squared_distance() {
    let mut index = SpatialIndex::new();
    index.add(&(0, 0), 0).unwrap();
    index.add(&(3, 0), 1).unwrap();
    index.add(&(4, 0), 2).unwrap();
    index.add(&(0, -3), 3).unwrap();
    // squared distances to the origin: 0, 9, 16, 9
    assert_eq!(index.within(&(0, 0), 9), vec![0, 1, 3]);
    assert_eq!(index.within(&(0, 0), 8), vec![0]);
    assert_eq!(index.within(&(0, 0), 16), vec![0, 1, 2, 3]);
    assert_eq!(index.within(&(0, 0), 0), vec![0]);
    assert_eq!(index.within(&(0, 0), -1), Vec::<usize>::new());
}

#[test]
fn index_within_scaled_multiplies_the_radius_by_the_unit() {
    let mut index = SpatialIndex::new();
    index.add(&(0, 0), 0).unwrap();
    index.add(&(3, 0), 1).unwrap();
    index.add(&(4, 0), 2).unwrap();
    index.add(&(0, -3), 3).unwrap();
    // squared distances to the origin: 0, 9, 16, 9
    assert_eq!(index.within_scaled(&(0, 0), 3, 3), vec![0, 1, 3]);
    assert_eq!(index.within_scaled(&(0, 0), 4, 2), vec![0]);
    assert_eq!(index.within_scaled(&(0, 0), 4, 4), vec![0, 1, 2, 3]);
    assert_eq!(index.within_scaled(&(0, 0), 9, 1), index.within(&(0, 0), 9));
    assert_eq!(index.within_scaled(&(0, 0), 7, 0), vec![0]);
    assert_eq!(index.within_scaled(&(0, 0), -1, 5), Vec::<usize>::new());
    assert_eq!(index.within_scaled(&(0, 0), -4, -4), vec![0, 1, 2, 3]);
    assert_eq!(index.within_scaled(&(0, 0), i64::MAX, i64::MAX), vec![0, 1, 2, 3]);
    assert_eq!(index.within_scaled(&(0, 0), i64::MIN, i64::MAX), Vec::<usize>::new());
}

#[test]
fn tree_add_registers_point_and_record() {
    let mut tree: PathTree<RRTStarNode> = PathTree::new();
    assert_eq!(tree.len(), 0);
    assert!(tree.get(0).is_none());
    assert_eq!(tree.add_node(star(0, None, 0, 0, 0)), Ok(()));
    assert_eq!(tree.add_node(star(1, Some(0), 5, 0, 5)), Ok(()));
    assert_eq!(tree.len(), 2);
    assert_eq!(tree.get(1).unwrap().cost, 5);
    assert_eq!(tree.get(1).unwrap().point(), (5, 0));
    assert!(tree.get(2).is_none());
    assert_eq!(tree.index.entries, vec![((0, 0), 0), ((5, 0), 1)]);
}

#[test]
fn tree_add_is_atomic_when_the_index_refuses() {
    let mut tree: PathTree<RRTStarNode> = PathTree::new();
    tree.add_node(star(0, None, 0, 0, 0)).unwrap();
    assert_eq!(tree.add_node(star(1, Some(0), 0, 0, 3)), Err(IndexError::DuplicateCoordinate));
    assert!(tree.get(1).is_none());
    assert_eq!(tree.len(), 1);
    assert_eq!(
        tree.add_node(star(2, Some(0), COORD_LIMIT + 5, 0, 3)),
        Err(IndexError::CoordinateOutOfRange)
    );
    assert!(tree.get(2).is_none());
    assert_eq!(tree.index.size(), 1);
    assert_eq!(tree.b_map.len(), 1);
}

#[test]
fn tree_add_refuses_a_known_identifier() {
    let mut tree: PathTree<RRTStarNode> = PathTree::new();
    tree.add_node(star(0, None, 0, 0, 0)).unwrap();
    assert_eq!(tree.add_node(star(0, None, 9, 9, 1)), Err(IndexError::DuplicateId));
    assert_eq!(tree.get(0).unwrap().point(), (0, 0));
    assert_eq!(tree.index.entries, vec![((0, 0), 0)]);
}

#[test]
fn tree_nearest_after_add_is_the_node_itself() {
    let mut tree: PathTree<RRTStarNode> = PathTree::new();
    tree.add_node(star(0, None, 0, 0, 0)).unwrap();
    tree.add_node(star(1, Some(0), 10, 0, 10)).unwrap();
    let n = star(2, Some(1), 10, 1, 11);
    let probe = n.clone();
    tree.add_node(n).unwrap();
    assert_eq!(tree.get_nearest_node_index(&probe), Some(2));
    // a node that is not in the tree finds the nearest one that is
    assert_eq!(tree.get_nearest_node_index(&star(9, None, 1, 1, 0)), Some(0));
    assert_eq!(tree.get_nearest_node_index(&star(9, None, 9, 3, 0)), Some(2));
}

#[test]
fn tree_nearest_of_an_empty_tree_is_none() {
    let tree: PathTree<RRTStarNode> = PathTree::new();
    assert_eq!(tree.get_nearest_node_index(&star(0, None, 1, 1, 0)), None);
}

#[test]
fn tree_within_gives_identifiers() {
    let mut tree: PathTree<RRTStarNode> = PathTree::new();
    tree.add_node(star(0, None, 0, 0, 0)).unwrap();
    tree.add_node(star(1, Some(0), 3, 4, 5)).unwrap();
    tree.add_node(star(2, Some(0), 6, 8, 10)).unwrap();
    let probe = star(7, None, 0, 0, 0);
    assert_eq!(tree.get_within(&probe, 25), vec![0, 1]);
    assert_eq!(tree.get_within(&probe, 24), vec![0]);
    assert_eq!(tree.get_within(&probe, 100), vec![0, 1, 2]);
    assert_eq!(tree.get_within_scaled(&probe, 5, 5), vec![0, 1]);
    assert_eq!(tree.get_within_scaled(&probe, 12, 2), vec![0]);
    assert_eq!(tree.get_within_scaled(&probe, 10, 10), vec![0, 1, 2]);
}

#[test]
fn tree_set_replaces_record_and_entry() {
    let mut tree: PathTree<RRTStarNode> = PathTree::new();
    tree.add_node(star(0, None, 0, 0, 0)).unwrap();
    tree.add_node(star(1, Some(0), 5, 0, 5)).unwrap();
    tree.add_node(star(2, Some(1), 9, 0, 9)).unwrap();
    // same point, new parent and cost
    assert_eq!(tree.set(star(1, Some(2), 5, 0, 13)), Ok(()));
    assert_eq!(tree.get(1).unwrap().cost, 13);
    assert_eq!(tree.get(1).unwrap().parent_id(), Some(2));
    assert_eq!(tree.index.entries, vec![((0, 0), 0), ((5, 0), 1), ((9, 0), 2)]);
    // a moved point: the stale entry leaves the index
    assert_eq!(tree.set(star(1, Some(2), 6, 6, 13)), Ok(()));
    assert_eq!(tree.index.entries, vec![((0, 0), 0), ((9, 0), 2), ((6, 6), 1)]);
    assert_eq!(tree.len(), 3);
    assert_eq!(tree.b_map.len(), 3);
}

#[test]
fn tree_set_refuses_the_point_of_another_node() {
    let mut tree: PathTree<RRTStarNode> = PathTree::new();
    tree.add_node(star(0, None, 0, 0, 0)).unwrap();
    tree.add_node(star(1, Some(0), 5, 0, 5)).unwrap();
    assert_eq!(tree.set(star(1, Some(0), 0, 0, 1)), Err(IndexError::DuplicateCoordinate));
    assert_eq!(tree.get(1).unwrap().point(), (5, 0));
    assert_eq!(tree.get(1).unwrap().cost, 5);
    assert_eq!(tree.index.entries, vec![((0, 0), 0), ((5, 0), 1)]);
    assert_eq!(
        tree.set(star(1, Some(0), 0, COORD_LIMIT + 1, 1)),
        Err(IndexError::CoordinateOutOfRange)
    );
    assert_eq!(tree.index.entries, vec![((0, 0), 0), ((5, 0), 1)]);
}

#[test]
fn tree_set_registers_a_new_identifier() {
    let mut tree: PathTree<RRTStarNode> = PathTree::new();
    tree.add_node(star(0, None, 0, 0, 0)).unwrap();
    assert_eq!(tree.set(star(4, Some(0), 2, 2, 2)), Ok(()));
    assert_eq!(tree.len(), 2);
    assert_eq!(tree.get(4).unwrap().point(), (2, 2));
}

#[test]
fn tree_path_walks_up_to_the_root() {
    let mut tree: PathTree<RRTStarNode> = PathTree::new();
    tree.add_node(star(0, None, 0, 0, 0)).unwrap();
    tree.add_node(star(1, Some(0), 5, 0, 5)).unwrap();
    tree.add_node(star(2, Some(1), 5, 5, 10)).unwrap();
    tree.add_node(star(3, Some(0), -5, 0, 5)).unwrap();
    let leaf = tree.get(2).unwrap().clone();
    assert_eq!(tree.get_path(&leaf, vec![]), vec![(5, 5), (5, 0), (0, 0)]);
    assert_eq!(tree.get_path(&leaf, vec![(9, 9)]), vec![(9, 9), (5, 5), (5, 0), (0, 0)]);
    let root = tree.get(0).unwrap().clone();
    assert_eq!(tree.get_path(&root, vec![]), vec![(0, 0)]);
}

#[test]
fn tree_path_ends_at_an_unknown_parent_and_in_a_cycle() {
    let mut tree: PathTree<RRTStarNode> = PathTree::new();
    tree.add_node(star(0, Some(1), 0, 0, 0)).unwrap();
    tree.add_node(star(1, Some(0), 5, 0, 5)).unwrap();
    let stray = star(7, Some(42), 1, 1, 0);
    assert_eq!(tree.get_path(&stray, vec![]), vec![(1, 1)]);
    // two nodes that name each other: the walk ends after as many steps as the tree has nodes
    let a = tree.get(0).unwrap().clone();
    assert_eq!(tree.get_path(&a, vec![]), vec![(0, 0), (5, 0), (0, 0)]);
}

#[test]
fn tree_last_is_the_greatest_identifier() {
    let mut tree: PathTree<RRTStarNode> = PathTree::new();
    assert!(tree.last().is_none());
    tree.add_node(star(5, None, 0, 0, 0)).unwrap();
    tree.add_node(star(9, Some(5), 1, 0, 1)).unwrap();
    tree.add_node(star(2, Some(5), 2, 0, 2)).unwrap();
    assert_eq!(tree.last().unwrap().id(), 9);
}

#[test]
fn tree_node_list_is_ordered_by_identifier() {
    let mut tree: PathTree<RRTStarNode> = PathTree::new();
    assert!(tree.node_list().is_empty());
    tree.add_node(star(5, None, 0, 0, 0)).unwrap();
    tree.add_node(star(9, Some(5), 1, 0, 1)).unwrap();
    tree.add_node(star(2, Some(5), 2, 0, 2)).unwrap();
    tree.add_node(star(0, Some(5), 3, 0, 3)).unwrap();
    let ids: Vec<usize> = tree.node_list().iter().map(|n| n.id()).collect();
    assert_eq!(ids, vec![0, 2, 5, 9]);
}
