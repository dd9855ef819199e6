use tower_defense::cooldown::Cooldown;
use tower_defense::enemy::Enemy;
use tower_defense::fixed::{Vec3, ONE};
use tower_defense::health::HealthPoints;
use tower_defense::tower::{acquire, fire, tower_shoot, Damage, Range, Shooting, Shot, Tower, MUZZLE_HEIGHT, ORB_SPEED};

fn enemy(entity: u64, x: i32, y: i32, z: i32) -> Enemy {
    Enemy { entity, translation: Some(Vec3::new(x, y, z)), health: HealthPoints { hp: 20, max_hp: 20 } }
}

fn tower(x: i32, z: i32) -> Tower {
    Tower {
        translation: Vec3::new(x, 0, z),
        shooting: Shooting { timer: Cooldown::new(1_000_000).unwrap() },
        range: Range { range: 15 * ONE },
        damage: Some(Damage { hp: 5 }),
    }
}

#[test]
fn nearest_enemy_in_range_is_the_target() {
    let from = Vec3::new(0, 0, 0);
    let enemies = vec![
        enemy(1, 20 * ONE, 0, 0),
        enemy(2, 9 * ONE, 0, 0),
        enemy(3, 0, 0, -4 * ONE),
        enemy(4, 5 * ONE, 0, 0),
    ];
    assert_eq!(acquire(from, 15 * ONE, &enemies), Some(2));
    assert_eq!(acquire(from, 4 * ONE, &enemies), None);
    assert_eq!(acquire(from, 4 * ONE + 1, &enemies), Some(2));
    assert_eq!(acquire(from, 0, &enemies), None);
    assert_eq!(acquire(from, 15 * ONE, &Vec::new()), None);
}

#[test]
fn first_of_equally_near_enemies_is_the_target() {
    let from = Vec3::new(0, 0, 0);
    let enemies = vec![enemy(1, 3 * ONE, 0, 0), enemy(2, 0, 0, 3 * ONE), enemy(3, -3 * ONE, 0, 0)];
    assert_eq!(acquire(from, 15 * ONE, &enemies), Some(0));
    let turned = vec![enemies[2], enemies[1], enemies[0]];
    assert_eq!(acquire(from, 15 * ONE, &turned), Some(0));
}

#[test]
fn lost_enemy_is_never_a_target() {
    let from = Vec3::new(0, 0, 0);
    let enemies = vec![
        Enemy { entity: 1, translation: None, health: HealthPoints { hp: 20, max_hp: 20 } },
        enemy(2, 9 * ONE, 0, 0),
    ];
    assert_eq!(acquire(from, 15 * ONE, &enemies), Some(1));
    assert_eq!(acquire(from, 15 * ONE, &enemies[..1].to_vec()), None);
}

#[test]
fn shot_starts_above_the_tower_and_aims_at_the_target() {
    let enemies = vec![enemy(1, 3 * ONE, 32768, 0)];
    let shot = fire(true, &tower(0, 0), &enemies);
    assert_eq!(
        shot,
        Some(Shot {
            translation: Vec3::new(0, MUZZLE_HEIGHT, 0),
            direction: Some(Vec3::new(58617, -29308, 0)),
            target: Vec3::new(3 * ONE, 32768, 0),
            speed: ORB_SPEED,
            damage: Some(Damage { hp: 5 }),
        })
    );
    assert_eq!(fire(false, &tower(0, 0), &enemies), None);
}

#[test]
fn tower_without_damage_shoots_harmless_orbs() {
    let mut harmless = tower(0, 0);
    harmless.damage = None;
    let shot = fire(true, &harmless, &vec![enemy(1, ONE, 0, 0)]).unwrap();
    assert_eq!(shot.damage, None);
}

#[test]
fn target_at_the_muzzle_gives_a_shot_without_direction() {
    let shot = fire(true, &tower(0, 0), &vec![enemy(1, 0, MUZZLE_HEIGHT, 0)]).unwrap();
    assert_eq!(shot.direction, None);
    assert_eq!(shot.target, Vec3::new(0, MUZZLE_HEIGHT, 0));
}

#[test]
fn tower_without_enemy_in_range_never_shoots() {
    let mut towers = vec![tower(0, 0)];
    let enemies = vec![enemy(1, 15 * ONE, 0, 0), enemy(2, 0, 0, 40 * ONE)];
    for _ in 0..50 {
        assert!(tower_shoot(100_000, &mut towers, &enemies).is_empty());
    }
    assert!(tower_shoot(3_000_000, &mut towers, &Vec::new()).is_empty());
    assert_eq!(towers[0].shooting.timer, Cooldown { period: 1_000_000, elapsed: 0 });
}

#[test]
fn tower_with_one_enemy_in_range_shoots_once_per_period() {
    let mut towers = vec![tower(0, 0)];
    let enemies = vec![enemy(1, 3 * ONE, 32768, 0), enemy(2, 0, 0, 40 * ONE)];
    let mut shots = 0;
    for tick in 1..=50 {
        let fired = tower_shoot(100_000, &mut towers, &enemies);
        assert_eq!(fired.len(), if tick % 10 == 0 { 1 } else { 0 });
        for shot in fired.iter() {
            assert_eq!(shot.target, Vec3::new(3 * ONE, 32768, 0));
        }
        shots += fired.len();
    }
    assert_eq!(shots, 5);
}

#[test]
fn each_tower_keeps_its_own_time() {
    let mut slow = tower(0, 0);
    slow.shooting.timer = Cooldown::new(3_000_000).unwrap();
    let mut towers = vec![tower(0, 0), slow, tower(50 * ONE, 50 * ONE)];
    let enemies = vec![enemy(1, 3 * ONE, 32768, 0)];
    assert_eq!(tower_shoot(1_500_000, &mut towers, &enemies).len(), 1);
    assert_eq!(towers[0].shooting.timer.elapsed, 500_000);
    assert_eq!(towers[1].shooting.timer.elapsed, 1_500_000);
    assert_eq!(towers[2].shooting.timer.elapsed, 500_000);
    let shots = tower_shoot(1_500_000, &mut towers, &enemies);
    assert_eq!(shots.len(), 2);
    assert_eq!(towers[0].shooting.timer.elapsed, 0);
    assert_eq!(towers[1].shooting.timer.elapsed, 0);
    assert_eq!(towers[0].translation, Vec3::new(0, 0, 0));
    assert_eq!(towers[1].range, Range { range: 15 * ONE });
}
