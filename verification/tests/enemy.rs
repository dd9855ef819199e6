use tower_defense::enemy::{enemy_move, flock, index_enemies, Enemy, Weights};
use tower_defense::fixed::{distance_squared, Vec2, Vec3, ONE};
use tower_defense::health::HealthPoints;
use tower_defense::quad_tree::QuadTree;

fn enemy(entity: u64, x: i32, y: i32, z: i32) -> Enemy {
    Enemy {
        entity,
        translation: Some(Vec3::new(x, y, z)),
        health: HealthPoints { hp: 20, max_hp: 20 },
    }
}

fn lost(entity: u64) -> Enemy {
    Enemy { entity, translation: None, health: HealthPoints { hp: 20, max_hp: 20 } }
}

fn world() -> QuadTree {
    QuadTree::new([Vec2::new(-64 * ONE, -64 * ONE), Vec2::new(64 * ONE, 64 * ONE)], 4 * ONE)
}

fn occupied(tree: &QuadTree) -> usize {
    tree.get_leaf_nodes().iter().filter(|leaf| leaf.objects.is_some()).count()
}

const SEPARATION_ONLY: Weights = Weights { goal: 0, separation: 1, cohesion: 0 };

#[test]
fn lone_enemy_walks_towards_the_goal() {
    let mut enemies = vec![enemy(1, 3 * ONE, 32768, 4 * ONE)];
    enemy_move(16_000, &mut enemies);
    assert_eq!(enemies[0].translation, Some(Vec3::new(196294, 32768, 261725)));
    assert_eq!(enemies[0].entity, 1);
    assert_eq!(enemies[0].health, HealthPoints { hp: 20, max_hp: 20 });
}

#[test]
fn close_neighbours_cancel_their_pulls() {
    let mut enemies = vec![enemy(1, 10 * ONE, 32768, 0), enemy(2, 11 * ONE, 32768, 0)];
    enemy_move(1_000_000, &mut enemies);
    assert_eq!(enemies[0].translation, Some(Vec3::new(622592, 32768, 0)));
    assert_eq!(enemies[1].translation, Some(Vec3::new(688128, 32768, 0)));
}

#[test]
fn neighbour_in_view_pulls_and_one_out_of_view_does_not() {
    let mut near = vec![enemy(1, 10 * ONE, 32768, 0), enemy(2, 10 * ONE, 32768, 3 * ONE)];
    enemy_move(1_000_000, &mut near);
    assert_eq!(near[0].translation, Some(Vec3::new(623229, 32768, 6426)));
    assert_eq!(near[1].translation, Some(Vec3::new(626155, 32768, 181749)));
    let mut far = vec![enemy(1, 10 * ONE, 32768, 0), enemy(2, 10 * ONE, 32768, 7 * ONE)];
    enemy_move(1_000_000, &mut far);
    assert_eq!(far[0].translation, Some(Vec3::new(622592, 32768, 0)));
    assert_eq!(far[1].translation, Some(Vec3::new(628516, 32768, 439961)));
}

#[test]
fn separation_alone_drives_two_enemies_apart() {
    let mut enemies = vec![enemy(1, ONE, 32768, 0), enemy(2, 2 * ONE, 32768, 0)];
    let gap = |enemies: &Vec<Enemy>| {
        distance_squared(enemies[0].translation.unwrap(), enemies[1].translation.unwrap())
    };
    let mut last = gap(&enemies);
    assert_eq!(last, u128::from(ONE as u32) * u128::from(ONE as u32));
    let expected = [72088u128, 78640, 85192, 91744];
    for step in expected {
        flock(SEPARATION_ONLY, 100_000, &mut enemies);
        let now = gap(&enemies);
        assert!(now > last);
        assert_eq!(now, step * step);
        last = now;
    }
    assert_eq!(enemies[0].translation, Some(Vec3::new(52432, 32768, 0)));
    assert_eq!(enemies[1].translation, Some(Vec3::new(144176, 32768, 0)));
}

#[test]
fn later_neighbours_count_for_more() {
    let me = enemy(1, 10 * ONE, 32768, 10 * ONE);
    let a = enemy(2, 11 * ONE, 32768, 10 * ONE);
    let b = enemy(3, 10 * ONE, 32768, 11 * ONE);
    let c = enemy(4, 9 * ONE, 32768, 10 * ONE + ONE / 2);
    let mut first = vec![me, a, b, c];
    flock(SEPARATION_ONLY, 1_000_000, &mut first);
    assert_eq!(first[0].translation, Some(Vec3::new(660609, 32768, 623016)));
    let mut second = vec![me, c, b, a];
    flock(SEPARATION_ONLY, 1_000_000, &mut second);
    assert_eq!(second[0].translation, Some(Vec3::new(639403, 32768, 626740)));
}

#[test]
fn every_enemy_moves_from_the_positions_before_the_tick() {
    let mut enemies = vec![
        enemy(1, 10 * ONE, 32768, 10 * ONE),
        enemy(2, 11 * ONE, 32768, 10 * ONE),
        enemy(3, 10 * ONE, 32768, 11 * ONE),
    ];
    flock(SEPARATION_ONLY, 1_000_000, &mut enemies);
    assert_eq!(enemies[0].translation, Some(Vec3::new(632190, 32768, 632190)));
    assert_eq!(enemies[1].translation, Some(Vec3::new(751169, 32768, 642821)));
    assert_eq!(enemies[2].translation, Some(Vec3::new(642821, 32768, 751169)));
}

#[test]
fn separation_radius_is_strict() {
    let mut enemies = vec![enemy(1, 10 * ONE, 32768, 0), enemy(2, 10 * ONE + 98304, 32768, 0)];
    flock(SEPARATION_ONLY, 1_000_000, &mut enemies);
    assert_eq!(enemies[0].translation, None);
    assert_eq!(enemies[1].translation, None);
}

#[test]
fn enemy_at_the_goal_loses_its_position() {
    let mut enemies = vec![enemy(1, 0, 32768, 0)];
    enemy_move(1_000, &mut enemies);
    assert_eq!(enemies[0].translation, None);
    enemy_move(1_000, &mut enemies);
    assert_eq!(enemies[0].translation, None);
}

#[test]
fn enemies_on_one_spot_lose_their_positions() {
    let mut enemies = vec![enemy(1, ONE, 32768, 0), enemy(2, ONE, 32768, 0), enemy(3, 40 * ONE, 32768, 0)];
    enemy_move(1_000_000, &mut enemies);
    assert_eq!(enemies[0].translation, None);
    assert_eq!(enemies[1].translation, None);
    assert_eq!(enemies[2].translation, Some(Vec3::new(40 * ONE - 32768, 32768, 0)));
}

#[test]
fn lost_enemy_stays_lost_and_pulls_nobody() {
    let mut enemies = vec![lost(1), enemy(2, 10 * ONE, 32768, 0)];
    enemy_move(1_000_000, &mut enemies);
    assert_eq!(enemies[0].translation, None);
    assert_eq!(enemies[1].translation, Some(Vec3::new(622592, 32768, 0)));
}

#[test]
fn empty_arena_moves_nothing() {
    let mut enemies: Vec<Enemy> = Vec::new();
    enemy_move(1_000_000, &mut enemies);
    assert!(enemies.is_empty());
}

#[test]
fn enemy_is_indexed_at_its_four_corners() {
    let mut tree = world();
    index_enemies(&mut tree, &vec![enemy(7, 0, 32768, 0)]);
    assert_eq!(occupied(&tree), 4);
    tree.clear_objects();
    index_enemies(&mut tree, &vec![enemy(7, 2 * ONE, 32768, 2 * ONE), enemy(8, 2 * ONE, 0, ONE)]);
    assert_eq!(occupied(&tree), 1);
    let leaves = tree.get_leaf_nodes();
    let leaf = leaves.iter().find(|leaf| leaf.objects.is_some()).unwrap();
    assert_eq!(leaf.objects.as_ref().unwrap().len(), 2);
}

#[test]
fn corner_on_a_split_line_goes_to_the_lower_leaf() {
    let mut tree = world();
    // The footprint spans x from 3.5 to 4.5 and z from 0 to 1: the line x = 4
    // cuts it, and z = 0 is the upper bound of the leaves below.
    index_enemies(&mut tree, &vec![enemy(7, 4 * ONE, 0, ONE / 2)]);
    let leaves = tree.get_leaf_nodes();
    let mut lower: Vec<_> = leaves
        .iter()
        .filter(|leaf| leaf.objects.is_some())
        .map(|leaf| (leaf.bounds[0].x / ONE, leaf.bounds[0].y / ONE))
        .collect();
    lower.sort();
    assert_eq!(lower, vec![(0, -4), (0, 0), (4, -4), (4, 0)]);
}

#[test]
fn enemy_outside_or_lost_is_not_indexed() {
    let mut tree = world();
    index_enemies(&mut tree, &vec![lost(1), enemy(2, 70 * ONE, 0, 0), enemy(3, 0, 0, -66 * ONE)]);
    assert_eq!(occupied(&tree), 0);
}

#[test]
fn enemy_on_the_border_is_indexed_by_its_inner_corners() {
    let mut tree = world();
    index_enemies(&mut tree, &vec![enemy(2, 64 * ONE, 0, 2 * ONE)]);
    assert_eq!(occupied(&tree), 1);
    tree.clear_objects();
    index_enemies(&mut tree, &vec![enemy(2, i32::MAX, 0, i32::MIN)]);
    assert_eq!(occupied(&tree), 0);
}
