use tower_defense::cooldown::Cooldown;
use tower_defense::health::{regen_health, HealthPoints, Regen};

#[test]
fn cooldown_needs_a_period() {
    assert_eq!(Cooldown::new(0), None);
    assert_eq!(Cooldown::new(1), Some(Cooldown { period: 1, elapsed: 0 }));
    assert_eq!(Cooldown::new(u64::MAX), Some(Cooldown { period: u64::MAX, elapsed: 0 }));
}

#[test]
fn cooldown_fires_when_the_period_has_passed() {
    let mut cooldown = Cooldown::new(1_000_000).unwrap();
    assert!(!cooldown.tick(400_000));
    assert_eq!(cooldown, Cooldown { period: 1_000_000, elapsed: 400_000 });
    assert!(!cooldown.tick(599_999));
    assert_eq!(cooldown.elapsed, 999_999);
    assert!(cooldown.tick(1));
    assert_eq!(cooldown.elapsed, 0);
    assert!(cooldown.tick(1_700_000));
    assert_eq!(cooldown.elapsed, 700_000);
    assert!(!cooldown.tick(0));
    assert_eq!(cooldown.elapsed, 700_000);
}

#[test]
fn cooldown_keeps_what_is_left_of_a_long_tick() {
    let mut cooldown = Cooldown::new(1_000_000).unwrap();
    assert!(cooldown.tick(2_500_000));
    assert_eq!(cooldown.elapsed, 500_000);
    let mut fast = Cooldown::new(1).unwrap();
    assert!(fast.tick(u32::MAX));
    assert_eq!(fast.elapsed, 0);
    let mut odd = Cooldown { period: 7, elapsed: 6 };
    assert!(odd.tick(u32::MAX));
    assert_eq!(odd.elapsed, (6 + u64::from(u32::MAX)) % 7);
    let mut slow = Cooldown { period: u64::MAX, elapsed: u64::MAX - 1 };
    assert!(slow.tick(5));
    assert_eq!(slow.elapsed, 4);
}

#[test]
fn health_regenerates_when_the_cooldown_fires() {
    let mut health = HealthPoints { hp: 10, max_hp: 20 };
    let mut regen = Regen { hp: 1, timer: Cooldown::new(2_000_000).unwrap() };
    regen_health(1_500_000, &mut health, &mut regen);
    assert_eq!(health.hp, 10);
    regen_health(1_500_000, &mut health, &mut regen);
    assert_eq!(health.hp, 11);
    assert_eq!(regen.timer.elapsed, 1_000_000);
    assert_eq!(health.max_hp, 20);
    assert_eq!(regen.hp, 1);
}

#[test]
fn full_health_does_not_regenerate() {
    let mut health = HealthPoints { hp: 20, max_hp: 20 };
    let mut regen = Regen { hp: 1, timer: Cooldown::new(2_000_000).unwrap() };
    regen_health(2_000_000, &mut health, &mut regen);
    assert_eq!(health.hp, 20);
    assert_eq!(regen.timer.elapsed, 0);
}

#[test]
fn regeneration_stops_at_the_maximum() {
    let mut health = HealthPoints { hp: 19, max_hp: 20 };
    let mut regen = Regen { hp: 5, timer: Cooldown::new(2_000_000).unwrap() };
    regen_health(2_000_000, &mut health, &mut regen);
    assert_eq!(health.hp, 20);
    regen_health(2_000_000, &mut health, &mut regen);
    assert_eq!(health.hp, 20);
    let mut low = HealthPoints { hp: 10, max_hp: 20 };
    regen_health(2_000_000, &mut low, &mut regen);
    assert_eq!(low.hp, 15);
    regen_health(2_000_000, &mut low, &mut regen);
    assert_eq!(low.hp, 20);
}

#[test]
fn huge_regeneration_does_not_overflow() {
    let mut health = HealthPoints { hp: usize::MAX - 1, max_hp: usize::MAX };
    let mut regen = Regen { hp: usize::MAX, timer: Cooldown::new(1).unwrap() };
    regen_health(1, &mut health, &mut regen);
    assert_eq!(health.hp, usize::MAX);
    let mut over = HealthPoints { hp: 30, max_hp: 20 };
    regen_health(1, &mut over, &mut regen);
    assert_eq!(over.hp, 30);
}
