use tower_defense::fixed::{
    advance, direction_to, distance_squared, is_closer_than, isqrt, normalize, Vec3, MAX_SPAN, ONE,
};

#[test]
fn integer_square_roots() {
    assert_eq!(isqrt(0), 0);
    assert_eq!(isqrt(1), 1);
    assert_eq!(isqrt(2), 1);
    assert_eq!(isqrt(3), 1);
    assert_eq!(isqrt(4), 2);
    assert_eq!(isqrt(15), 3);
    assert_eq!(isqrt(16), 4);
    assert_eq!(isqrt(17), 4);
    assert_eq!(isqrt(1 << 64), 1 << 32);
    assert_eq!(isqrt((1 << 64) - 1), (1 << 32) - 1);
    assert_eq!(isqrt(u128::MAX), u64::MAX);
}

#[test]
fn squared_distances_are_exact() {
    let a = Vec3::new(1, 2, 3);
    let b = Vec3::new(4, 6, 3);
    assert_eq!(distance_squared(a, b), 25);
    assert_eq!(distance_squared(b, a), 25);
    let far = distance_squared(Vec3::new(i32::MIN, i32::MIN, i32::MIN), Vec3::new(i32::MAX, i32::MAX, i32::MAX));
    assert_eq!(far, 3 * (u128::from(u32::MAX) * u128::from(u32::MAX)));
}

#[test]
fn closer_than_is_strict() {
    let a = Vec3::new(0, 0, 0);
    assert!(is_closer_than(a, Vec3::new(3, 4, 0), 6));
    assert!(!is_closer_than(a, Vec3::new(3, 4, 0), 5));
    assert!(!is_closer_than(a, a, 0));
    assert!(!is_closer_than(a, a, -1));
    assert!(is_closer_than(a, a, 1));
}

#[test]
fn directions_have_unit_length() {
    assert_eq!(normalize(3, 4, 0), Some(Vec3::new(39321, 52428, 0)));
    assert_eq!(normalize(-3, 0, 4), Some(Vec3::new(-39321, 0, 52428)));
    assert_eq!(normalize(1, 1, 0), Some(Vec3::new(46341, 46341, 0)));
    assert_eq!(normalize(1, 1, 1), Some(Vec3::new(37837, 37837, 37837)));
    assert_eq!(normalize(i64::from(ONE), 0, 0), Some(Vec3::new(ONE, 0, 0)));
    assert_eq!(normalize(0, -7, 0), Some(Vec3::new(0, -ONE, 0)));
    assert_eq!(normalize(MAX_SPAN, MAX_SPAN, MAX_SPAN), Some(Vec3::new(37837, 37837, 37837)));
    assert_eq!(normalize(-MAX_SPAN, 0, 0), Some(Vec3::new(-ONE, 0, 0)));
}

#[test]
fn zero_displacement_has_no_direction() {
    assert_eq!(normalize(0, 0, 0), None);
    let p = Vec3::new(5, 6, 7);
    assert_eq!(direction_to(p, p), None);
}

#[test]
fn direction_between_far_points() {
    let low = Vec3::new(i32::MIN, 0, 0);
    let high = Vec3::new(i32::MAX, 0, 0);
    assert_eq!(direction_to(low, high), Some(Vec3::new(ONE, 0, 0)));
    assert_eq!(direction_to(high, low), Some(Vec3::new(-ONE, 0, 0)));
}

#[test]
fn advancing_for_a_second_covers_the_speed() {
    let start = Vec3::new(0, 0, 0);
    let east = Vec3::new(ONE, 0, 0);
    assert_eq!(advance(start, east, 32768, 1_000_000), Vec3::new(32768, 0, 0));
    assert_eq!(advance(start, east, 32768, 0), start);
    assert_eq!(advance(start, Vec3::new(-ONE, 0, ONE), 655360, 500_000), Vec3::new(-327680, 0, 327680));
}

#[test]
fn advancing_rounds_towards_zero() {
    let start = Vec3::new(100, 100, 100);
    // 39321 * 32768 * 16000 / 65536000000 = 314.568, and likewise below zero.
    assert_eq!(
        advance(start, Vec3::new(-39321, 0, -52428), 32768, 16_000),
        Vec3::new(100 - 314, 100, 100 - 419)
    );
    assert_eq!(advance(start, Vec3::new(1, -1, 0), 1, 1), start);
}

#[test]
fn advancing_stops_at_the_edge_of_space() {
    let edge = Vec3::new(i32::MAX - 5, i32::MIN + 5, 0);
    let moved = advance(edge, Vec3::new(ONE, -ONE, 0), 655360, 1_000_000);
    assert_eq!(moved, Vec3::new(i32::MAX, i32::MIN, 0));
}
