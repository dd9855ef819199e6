use std::collections::HashSet;
use tower_defense::fixed::{Vec2, Vec3, ONE};
use tower_defense::orb::{despawn_reach_ground, index_orbs, move_orb, Orb};
use tower_defense::quad_tree::QuadTree;
use tower_defense::tower::Damage;

fn orb(entity: u64, x: i32, y: i32, z: i32) -> Orb {
    Orb {
        entity,
        translation: Some(Vec3::new(x, y, z)),
        direction: Some(Vec3::new(58617, -29308, 0)),
        target: Vec3::new(3 * ONE, 32768, 0),
        speed: 10 * ONE,
        damage: Some(Damage { hp: 5 }),
    }
}

fn world() -> QuadTree {
    QuadTree::new([Vec2::new(-64 * ONE, -64 * ONE), Vec2::new(64 * ONE, 64 * ONE)], 4 * ONE)
}

#[test]
fn orb_flies_along_its_direction() {
    let mut orbs = vec![orb(1, 0, 2 * ONE, 0)];
    move_orb(100_000, &mut orbs);
    assert_eq!(orbs[0].translation, Some(Vec3::new(58617, 2 * ONE - 29308, 0)));
    assert_eq!(orbs[0].direction, Some(Vec3::new(58617, -29308, 0)));
    assert_eq!(orbs[0].target, Vec3::new(3 * ONE, 32768, 0));
    assert_eq!(orbs[0].entity, 1);
    move_orb(0, &mut orbs);
    assert_eq!(orbs[0].translation, Some(Vec3::new(58617, 2 * ONE - 29308, 0)));
}

#[test]
fn orb_flies_past_its_target() {
    let mut orbs = vec![orb(1, 0, 2 * ONE, 0)];
    for _ in 0..5 {
        move_orb(100_000, &mut orbs);
    }
    assert_eq!(orbs[0].translation, Some(Vec3::new(5 * 58617, 2 * ONE - 5 * 29308, 0)));
    assert!(orbs[0].translation.unwrap().y < 0);
}

#[test]
fn orb_without_direction_loses_its_position() {
    let mut stuck = orb(1, 0, 2 * ONE, 0);
    stuck.direction = None;
    let mut orbs = vec![stuck, orb(2, 0, 0, 0)];
    move_orb(100_000, &mut orbs);
    assert_eq!(orbs[0].translation, None);
    assert_eq!(orbs[1].translation, Some(Vec3::new(58617, -29308, 0)));
    assert!(despawn_reach_ground(&orbs).contains(&2));
    assert!(!despawn_reach_ground(&orbs).contains(&1));
}

#[test]
fn orbs_below_the_ground_are_marked() {
    let mut lost = orb(4, 0, 0, 0);
    lost.translation = None;
    let orbs = vec![orb(1, 0, 1, 0), orb(2, 0, 0, 0), orb(3, 5, -1, 9), lost, orb(5, 0, i32::MIN, 0)];
    let marked = despawn_reach_ground(&orbs);
    let expected: HashSet<u64> = [3, 5].into_iter().collect();
    assert_eq!(marked, expected);
    assert!(despawn_reach_ground(&Vec::new()).is_empty());
}

#[test]
fn orb_is_indexed_below_where_it_flies() {
    let mut tree = world();
    let mut lost = orb(3, 0, 0, 0);
    lost.translation = None;
    index_orbs(&mut tree, &vec![orb(1, 5 * ONE, 30 * ONE, -5 * ONE), orb(2, 65 * ONE, 0, 0), lost]);
    let leaves = tree.get_leaf_nodes();
    let occupied: Vec<_> = leaves.iter().filter(|leaf| leaf.objects.is_some()).collect();
    assert_eq!(occupied.len(), 1);
    assert_eq!(occupied[0].bounds, [Vec2::new(4 * ONE, -8 * ONE), Vec2::new(8 * ONE, -4 * ONE)]);
    assert!(occupied[0].objects.as_ref().unwrap().contains(&1));
}
