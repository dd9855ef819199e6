use tower_defense::fixed::{Vec2, ONE};
use tower_defense::quad_tree::QuadTree;

fn units(x: i32, y: i32) -> Vec2 {
    Vec2::new(x * ONE, y * ONE)
}

fn world() -> QuadTree {
    QuadTree::new([units(-64, -64), units(64, 64)], 4 * ONE)
}

fn occupied(tree: &QuadTree) -> usize {
    tree.get_leaf_nodes().iter().filter(|leaf| leaf.objects.is_some()).count()
}

#[test]
fn world_has_1024_leaves_of_four_units() {
    let tree = world();
    let leaves = tree.get_leaf_nodes();
    assert_eq!(leaves.len(), 1024);
    for leaf in leaves.iter() {
        assert!(leaf.children.is_none());
        assert!(leaf.objects.is_none());
        assert_eq!(leaf.bounds[1].x - leaf.bounds[0].x, 4 * ONE);
        assert_eq!(leaf.bounds[1].y - leaf.bounds[0].y, 4 * ONE);
        assert_eq!(leaf.min_size, 4 * ONE);
    }
}

#[test]
fn footprint_at_the_origin_occupies_four_leaves() {
    let mut tree = world();
    let half = ONE / 2;
    for (dx, dz) in [(-half, -half), (half, -half), (-half, half), (half, half)] {
        assert_eq!(tree.insert(7, Vec2::new(dx, dz)), Ok(()));
    }
    assert_eq!(occupied(&tree), 4);
    for leaf in tree.get_leaf_nodes() {
        if let Some(objects) = &leaf.objects {
            assert_eq!(objects.len(), 1);
            assert!(objects.contains(&7));
            assert!(leaf.bounds[0].x == -4 * ONE || leaf.bounds[0].x == 0);
            assert!(leaf.bounds[0].y == -4 * ONE || leaf.bounds[0].y == 0);
        }
    }
}

#[test]
fn footprint_inside_one_leaf_occupies_one_leaf() {
    let mut tree = world();
    let half = ONE / 2;
    for (dx, dz) in [(-half, -half), (half, -half), (-half, half), (half, half)] {
        assert_eq!(tree.insert(7, Vec2::new(2 * ONE + dx, 2 * ONE + dz)), Ok(()));
    }
    assert_eq!(occupied(&tree), 1);
}

#[test]
fn every_sampled_point_lies_in_exactly_one_leaf() {
    let tree = world();
    let leaves = tree.get_leaf_nodes();
    let mut x = -64 * ONE + 1;
    while x <= 64 * ONE {
        let mut y = -64 * ONE + 1;
        while y <= 64 * ONE {
            let point = Vec2::new(x, y);
            assert!(tree.contains(point));
            assert_eq!(leaves.iter().filter(|leaf| leaf.contains(point)).count(), 1);
            y += 7 * ONE + 4321;
        }
        x += 5 * ONE + 1234;
    }
}

#[test]
fn point_on_a_split_line_lies_in_exactly_one_leaf() {
    let tree = world();
    let leaves = tree.get_leaf_nodes();
    for point in [units(0, 0), units(0, 5), units(-32, 16), units(4, 4), units(64, 64), units(8, -63)] {
        let holders: Vec<_> = leaves.iter().filter(|leaf| leaf.contains(point)).collect();
        assert_eq!(holders.len(), 1);
        assert!(holders[0].bounds[0].x < point.x && point.x <= holders[0].bounds[1].x);
    }
    let origin: Vec<_> = leaves.iter().filter(|leaf| leaf.contains(units(0, 0))).collect();
    assert_eq!(origin[0].bounds, [units(-4, -4), units(0, 0)]);
}

#[test]
fn lower_bound_is_outside_and_upper_bound_inside() {
    let tree = world();
    assert!(!tree.contains(units(-64, 0)));
    assert!(!tree.contains(units(0, -64)));
    assert!(tree.contains(units(64, 64)));
    assert!(tree.contains(Vec2::new(-64 * ONE + 1, -64 * ONE + 1)));
    assert!(!tree.contains(Vec2::new(64 * ONE + 1, 0)));
}

#[test]
fn insert_out_of_bounds_is_refused_and_changes_nothing() {
    let mut tree = world();
    assert_eq!(tree.insert(1, units(65, 0)), Err(()));
    assert_eq!(tree.insert(1, units(-64, 0)), Err(()));
    assert_eq!(tree.insert(1, units(0, 100)), Err(()));
    assert_eq!(occupied(&tree), 0);
}

#[test]
fn insert_is_idempotent_and_leaves_share() {
    let mut tree = world();
    assert_eq!(tree.insert(1, units(1, 1)), Ok(()));
    assert_eq!(tree.insert(1, units(1, 1)), Ok(()));
    assert_eq!(tree.insert(2, units(2, 3)), Ok(()));
    assert_eq!(occupied(&tree), 1);
    let leaves = tree.get_leaf_nodes();
    let leaf = leaves.iter().find(|leaf| leaf.objects.is_some()).unwrap();
    let objects = leaf.objects.as_ref().unwrap();
    assert_eq!(objects.len(), 2);
    assert!(objects.contains(&1) && objects.contains(&2));
    assert_eq!(leaf.bounds, [units(0, 0), units(4, 4)]);
}

#[test]
fn insert_then_clear_leaves_no_leaf_occupied() {
    let mut tree = world();
    assert_eq!(tree.insert(1, units(1, 1)), Ok(()));
    assert_eq!(tree.insert(2, units(-20, 40)), Ok(()));
    assert_eq!(occupied(&tree), 2);
    tree.clear_objects();
    assert_eq!(occupied(&tree), 0);
    assert_eq!(tree.get_leaf_nodes().len(), 1024);
    assert_eq!(tree.insert(3, units(1, 1)), Ok(()));
    assert_eq!(occupied(&tree), 1);
}

#[test]
fn leaves_come_breadth_first_in_quadrant_order() {
    let tree = QuadTree::new([units(0, 0), units(8, 8)], 4 * ONE);
    let leaves = tree.get_leaf_nodes();
    assert_eq!(leaves.len(), 4);
    assert_eq!(leaves[0].bounds, [units(0, 0), units(4, 4)]);
    assert_eq!(leaves[1].bounds, [units(4, 0), units(8, 4)]);
    assert_eq!(leaves[2].bounds, [units(0, 4), units(4, 8)]);
    assert_eq!(leaves[3].bounds, [units(4, 4), units(8, 8)]);
    let again = tree.get_leaf_nodes();
    for (a, b) in leaves.iter().zip(again.iter()) {
        assert_eq!(a.bounds, b.bounds);
    }
}

#[test]
fn shallow_leaves_come_before_deep_ones() {
    // Nine steps wide with leaves of at most four: the low half is four wide
    // and stays whole, the high half is five wide and is split once more.
    let tree = QuadTree::new([Vec2::new(0, 0), Vec2::new(9, 9)], 4);
    let leaves = tree.get_leaf_nodes();
    assert_eq!(leaves.len(), 2 + 2 * 4);
    assert_eq!(leaves[0].bounds, [Vec2::new(0, 0), Vec2::new(4, 4)]);
    assert_eq!(leaves[1].bounds, [Vec2::new(0, 4), Vec2::new(4, 9)]);
    assert_eq!(leaves[2].bounds, [Vec2::new(4, 0), Vec2::new(6, 2)]);
    assert_eq!(leaves[9].bounds, [Vec2::new(6, 6), Vec2::new(9, 9)]);
}

#[test]
fn tree_no_wider_than_a_leaf_is_one_leaf() {
    let mut tree = QuadTree::new([units(0, 0), units(4, 4)], 4 * ONE);
    assert!(tree.children.is_none());
    assert_eq!(tree.get_leaf_nodes().len(), 1);
    assert_eq!(tree.insert(9, units(1, 1)), Ok(()));
    assert_eq!(tree.insert(9, units(5, 1)), Err(()));
    assert_eq!(occupied(&tree), 1);
}

#[test]
fn note_skips_points_that_no_coordinate_holds() {
    let mut tree = world();
    tree.note(4, i64::from(i32::MAX) + 10, 0);
    tree.note(4, 0, i64::from(i32::MIN) - 10);
    assert_eq!(occupied(&tree), 0);
    tree.note(4, i64::from(ONE), i64::from(ONE));
    assert_eq!(occupied(&tree), 1);
}

#[test]
fn leaf_is_occupied_exactly_if_it_holds_a_handle() {
    let mut tree = world();
    assert!(tree.get_leaf_nodes().iter().all(|leaf| !leaf.is_occupied()));
    assert_eq!(tree.insert(1, units(1, 1)), Ok(()));
    assert_eq!(tree.insert(1, units(70, 1)), Err(()));
    tree.note(2, i64::from(100 * ONE), 0);
    for leaf in tree.get_leaf_nodes() {
        let holds = leaf.objects.as_ref().map_or(0, |objects| objects.len());
        assert_eq!(leaf.is_occupied(), holds > 0);
        assert_eq!(leaf.is_occupied(), leaf.bounds == [units(0, 0), units(4, 4)]);
    }
    assert!(!tree.is_occupied());
    tree.clear_objects();
    assert!(tree.get_leaf_nodes().iter().all(|leaf| !leaf.is_occupied()));
}

#[test]
fn each_level_of_splitting_quadruples_the_leaves() {
    let mut expected = 1;
    for levels in 0..6 {
        let side = 4 << levels;
        let tree = QuadTree::new([units(0, 0), units(side, side)], 4 * ONE);
        assert_eq!(tree.get_leaf_nodes().len(), expected);
        expected *= 4;
    }
}

#[test]
fn leaves_of_an_uneven_square_keep_their_room() {
    // 37 steps wide with leaves of at most 9: no leaf is narrower than 4
    // or flatter than 4.
    let tree = QuadTree::new([Vec2::new(-5, 3), Vec2::new(32, 40)], 9);
    for leaf in tree.get_leaf_nodes() {
        let wide = leaf.bounds[1].x - leaf.bounds[0].x;
        let deep = leaf.bounds[1].y - leaf.bounds[0].y;
        assert!(wide > 4 && wide <= 9);
        assert!(deep >= 4);
    }
}
