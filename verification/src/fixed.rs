//! Fixed-point coordinates and the exact distance tests built on them.
//!
//! Every coordinate is an `i32` count of steps, [`ONE`] steps to the world
//! unit. Distances are never rounded: two points are compared through the
//! squares of their distances, which are exact integers.

use vstd::prelude::*;

verus! {

/// Number of coordinate steps in one world unit.
pub const ONE: i32 = 65536;

/// A point or displacement in the horizontal plane.
#[derive(Clone, Copy, Debug, PartialEq, Eq, Structural)]
pub struct Vec2 {
    pub x: i32,
    pub y: i32,
}

/// A point or displacement in space; `y` is the height above the ground.
#[derive(Clone, Copy, Debug, PartialEq, Eq, Structural)]
pub struct Vec3 {
    pub x: i32,
    pub y: i32,
    pub z: i32,
}

impl Vec2 {
    pub fn new(x: i32, y: i32) -> (v: Vec2)
        ensures
            v == (Vec2 { x, y }),
    {
        Vec2 { x, y }
    }
}

impl Vec3 {
    pub fn new(x: i32, y: i32, z: i32) -> (v: Vec3)
        ensures
            v == (Vec3 { x, y, z }),
    {
        Vec3 { x, y, z }
    }
}

/// Square of the distance between two points, in squared steps.
pub open spec fn dist_sq(a: Vec3, b: Vec3) -> int {
    (a.x - b.x) * (a.x - b.x) + (a.y - b.y) * (a.y - b.y) + (a.z - b.z) * (a.z - b.z)
}

/// Whether the distance between `a` and `b` is strictly below `radius`.
pub open spec fn closer_than(a: Vec3, b: Vec3, radius: int) -> bool {
    radius > 0 && dist_sq(a, b) < radius * radius
}

fn square_of_difference(a: i32, b: i32) -> (r: u128)
    ensures
        r == (a - b) * (a - b),
        r <= 0xffff_ffff * 0xffff_ffff,
{
    let d: u128 = if a >= b {
        (a as i64 - b as i64) as u128
    } else {
        (b as i64 - a as i64) as u128
    };
    assert(d * d <= 0xffff_ffff * 0xffff_ffff) by (nonlinear_arith)
        requires
            0 <= d <= 0xffff_ffff,
    ;
    assert(d * d == (a - b) * (a - b)) by (nonlinear_arith)
        requires
            d == a - b || d == b - a,
    ;
    d * d
}

/// Computes the squared distance between two points.
pub fn distance_squared(a: Vec3, b: Vec3) -> (r: u128)
    ensures
        r == dist_sq(a, b),
{
    square_of_difference(a.x, b.x) + square_of_difference(a.y, b.y) + square_of_difference(
        a.z,
        b.z,
    )
}

/// Tests whether two points are strictly less than `radius` steps apart.
/// No point is closer than a radius of zero or less.
pub fn is_closer_than(a: Vec3, b: Vec3, radius: i32) -> (r: bool)
    ensures
        r == closer_than(a, b, radius as int),
{
    if radius <= 0 {
        false
    } else {
        let limit: u128 = radius as u128;
        assert(limit * limit <= 0x7fff_ffff * 0x7fff_ffff) by (nonlinear_arith)
            requires
                0 <= limit <= 0x7fff_ffff,
        ;
        distance_squared(a, b) < limit * limit
    }
}

/// Whether `r` is the integer square root of `n`: its square is at most
/// `n`, and the square of the next number is more.
pub open spec fn is_sqrt_floor(n: nat, r: nat) -> bool {
    r * r <= n < (r + 1) * (r + 1)
}

/// The integer square root of `n`.
pub open spec fn sqrt_floor(n: nat) -> nat {
    choose|r: nat| is_sqrt_floor(n, r)
}

proof fn lemma_square_order(a: nat, b: nat)
    requires
        a * a < (b + 1) * (b + 1),
    ensures
        a <= b,
{
    assert(a <= b) by (nonlinear_arith)
        requires
            a * a < (b + 1) * (b + 1),
    ;
}

/// A number that lies between two neighbouring squares as `sqrt_floor`
/// demands is the integer square root.
pub proof fn lemma_sqrt_floor_unique(n: nat, r: nat)
    requires
        is_sqrt_floor(n, r),
    ensures
        sqrt_floor(n) == r,
{
    let s = sqrt_floor(n);
    assert(is_sqrt_floor(n, s));
    lemma_square_order(s, r);
    lemma_square_order(r, s);
}

/// Computes the integer square root.
pub fn isqrt(n: u128) -> (r: u64)
    ensures
        r == sqrt_floor(n as nat),
        is_sqrt_floor(n as nat, r as nat),
{
    let mut lo: u128 = 0;
    let mut hi: u128 = 0x1_0000_0000_0000_0000;
    assert(lo * lo <= n) by (nonlinear_arith)
        requires
            lo == 0,
    ;
    assert(n < hi * hi) by (nonlinear_arith)
        requires
            hi == 0x1_0000_0000_0000_0000,
            n <= 0xffff_ffff_ffff_ffff_ffff_ffff_ffff_ffff,
    ;
    while hi - lo > 1
        invariant
            lo < hi <= 0x1_0000_0000_0000_0000,
            lo * lo <= n < hi * hi,
        decreases hi - lo,
    {
        let mid = lo + (hi - lo) / 2;
        assert(mid * mid <= 0xffff_ffff_ffff_ffff * 0xffff_ffff_ffff_ffff) by (nonlinear_arith)
            requires
                0 <= mid <= 0xffff_ffff_ffff_ffff,
        ;
        if mid * mid <= n {
            lo = mid;
        } else {
            hi = mid;
        }
    }
    proof {
        assert(hi == lo + 1);
        lemma_sqrt_floor_unique(n as nat, lo as nat);
    }
    lo as u64
}

/// The largest component, in magnitude, of a displacement that can be
/// given a direction: twice the span of a coordinate.
pub const MAX_SPAN: i64 = 0x2_0000_0000;

/// Length of the displacement `(x, y, z)` in steps of `1 / ONE` of a
/// coordinate step, rounded down.
pub open spec fn fine_length(x: int, y: int, z: int) -> nat {
    sqrt_floor(((x * x + y * y + z * z) * ONE * ONE) as nat)
}

/// One component `c` of a displacement of fine length `len`, scaled so
/// that the whole displacement has length `ONE`, rounded towards zero.
pub open spec fn scaled(c: int, len: int) -> int {
    if c >= 0 {
        (c * ONE * ONE) / len
    } else {
        -((-c * ONE * ONE) / len)
    }
}

/// The direction of the displacement `(x, y, z)`: the displacement scaled
/// to length `ONE`. The zero displacement has no direction.
pub open spec fn unit(x: int, y: int, z: int) -> Option<Vec3> {
    if x == 0 && y == 0 && z == 0 {
        None
    } else {
        let len = fine_length(x, y, z) as int;
        Some(Vec3 { x: scaled(x, len) as i32, y: scaled(y, len) as i32, z: scaled(z, len) as i32 })
    }
}

/// A direction, or the zero vector: no component exceeds `ONE`.
pub open spec fn is_short(v: Vec3) -> bool {
    -ONE <= v.x <= ONE && -ONE <= v.y <= ONE && -ONE <= v.z <= ONE
}

proof fn lemma_component_below_length(c: nat, sum: nat, len: nat)
    requires
        c * c <= sum,
        is_sqrt_floor((sum * 65536 * 65536) as nat, len),
    ensures
        c * 65536 <= len,
        (c * 65536 * 65536) as int <= len * 65536,
{
    let fine = c * 65536;
    assert(fine * fine == c * c * 65536 * 65536) by (nonlinear_arith)
        requires
            fine == c * 65536,
    ;
    assert(c * c * 65536 * 65536 <= sum * 65536 * 65536) by (nonlinear_arith)
        requires
            c * c <= sum,
    ;
    lemma_square_order(fine, len);
}

fn scale_component(c: i64, len: u128) -> (r: i32)
    requires
        -MAX_SPAN <= c <= MAX_SPAN,
        len > 0,
        (if c >= 0 {
            c as int
        } else {
            -c
        }) * 65536 * 65536 <= len * 65536,
    ensures
        r == scaled(c as int, len as int),
        -ONE <= r <= ONE,
{
    let magnitude: u128 = if c >= 0 {
        c as u128
    } else {
        (-c) as u128
    };
    let numerator: u128 = magnitude * 65536 * 65536;
    let quotient = numerator / len;
    proof {
        assert(quotient <= 65536) by (nonlinear_arith)
            requires
                quotient == numerator / len,
                numerator <= len * 65536,
                len > 0,
        ;
    }
    if c >= 0 {
        quotient as i32
    } else {
        -(quotient as i32)
    }
}

/// Computes the direction of a displacement.
pub fn normalize(x: i64, y: i64, z: i64) -> (r: Option<Vec3>)
    requires
        -MAX_SPAN <= x <= MAX_SPAN,
        -MAX_SPAN <= y <= MAX_SPAN,
        -MAX_SPAN <= z <= MAX_SPAN,
    ensures
        r == unit(x as int, y as int, z as int),
        r is None <==> x == 0 && y == 0 && z == 0,
        r matches Some(v) ==> is_short(v),
{
    if x == 0 && y == 0 && z == 0 {
        return None;
    }
    let ax: u128 = if x >= 0 {
        x as u128
    } else {
        (-x) as u128
    };
    let ay: u128 = if y >= 0 {
        y as u128
    } else {
        (-y) as u128
    };
    let az: u128 = if z >= 0 {
        z as u128
    } else {
        (-z) as u128
    };
    proof {
        assert(ax * ax <= 0x2_0000_0000 * 0x2_0000_0000) by (nonlinear_arith)
            requires
                ax <= 0x2_0000_0000,
        ;
        assert(ay * ay <= 0x2_0000_0000 * 0x2_0000_0000) by (nonlinear_arith)
            requires
                ay <= 0x2_0000_0000,
        ;
        assert(az * az <= 0x2_0000_0000 * 0x2_0000_0000) by (nonlinear_arith)
            requires
                az <= 0x2_0000_0000,
        ;
        assert(ax * ax == x * x) by (nonlinear_arith)
            requires
                ax == x || ax == -x,
        ;
        assert(ay * ay == y * y) by (nonlinear_arith)
            requires
                ay == y || ay == -y,
        ;
        assert(az * az == z * z) by (nonlinear_arith)
            requires
                az == z || az == -z,
        ;
    }
    let sum: u128 = ax * ax + ay * ay + az * az;
    let len: u128 = isqrt(sum * 65536 * 65536) as u128;
    proof {
        assert(sum * 65536 * 65536 == (x * x + y * y + z * z) * ONE * ONE);
        assert(len == fine_length(x as int, y as int, z as int));
        assert(ay * ay >= 0 && az * az >= 0 && ax * ax >= 0);
        lemma_component_below_length(ax as nat, sum as nat, len as nat);
        lemma_component_below_length(ay as nat, sum as nat, len as nat);
        lemma_component_below_length(az as nat, sum as nat, len as nat);
        assert(len > 0);
    }
    Some(
        Vec3 {
            x: scale_component(x, len),
            y: scale_component(y, len),
            z: scale_component(z, len),
        },
    )
}

/// Number of time steps in a second: time is counted in microseconds.
pub const SECOND: u32 = 1000000;

/// The direction from one point to another. A point has no direction to
/// itself.
pub open spec fn direction(from: Vec3, to: Vec3) -> Option<Vec3> {
    unit(to.x - from.x, to.y - from.y, to.z - from.z)
}

/// Computes the direction from one point to another.
pub fn direction_to(from: Vec3, to: Vec3) -> (r: Option<Vec3>)
    ensures
        r == direction(from, to),
        r is None <==> from == to,
        r matches Some(v) ==> is_short(v),
{
    normalize(to.x as i64 - from.x as i64, to.y as i64 - from.y as i64, to.z as i64 - from.z as i64)
}

/// A coordinate that stays within what a coordinate can hold: a point
/// that would leave the representable space stops at its edge.
pub open spec fn clamp_coordinate(value: int) -> i32 {
    if value < i32::MIN {
        i32::MIN
    } else if value > i32::MAX {
        i32::MAX
    } else {
        value as i32
    }
}

/// How far an object travels along one axis in `delta` microseconds, at
/// `speed` steps a second, where `c` is that axis's component of its
/// direction: rounded towards zero.
pub open spec fn travel(c: int, speed: int, delta: int) -> int {
    let product = c * speed * delta;
    if product >= 0 {
        product / (ONE * SECOND)
    } else {
        -((-product) / (ONE * SECOND))
    }
}

/// Where an object at `position` is after `delta` microseconds at
/// `speed` steps a second in `direction`.
pub open spec fn advanced(position: Vec3, direction: Vec3, speed: int, delta: int) -> Vec3 {
    Vec3 {
        x: clamp_coordinate(position.x + travel(direction.x as int, speed, delta)),
        y: clamp_coordinate(position.y + travel(direction.y as int, speed, delta)),
        z: clamp_coordinate(position.z + travel(direction.z as int, speed, delta)),
    }
}

fn advance_coordinate(at: i32, c: i32, speed: i32, delta: u32) -> (r: i32)
    ensures
        r == clamp_coordinate(at + travel(c as int, speed as int, delta as int)),
{
    let a: i128 = c as i128;
    let b: i128 = speed as i128;
    let d: i128 = delta as i128;
    assert(-0x8000_0000 * 0x8000_0000 <= a * b <= 0x8000_0000 * 0x8000_0000) by (nonlinear_arith)
        requires
            -0x8000_0000 <= a <= 0x8000_0000,
            -0x8000_0000 <= b <= 0x8000_0000,
    ;
    let ab = a * b;
    assert(-0x4000_0000_0000_0000 * 0x1_0000_0000 <= ab * d <= 0x4000_0000_0000_0000
        * 0x1_0000_0000) by (nonlinear_arith)
        requires
            -0x4000_0000_0000_0000 <= ab <= 0x4000_0000_0000_0000,
            0 <= d <= 0x1_0000_0000,
    ;
    let product = ab * d;
    let step: i128 = if product >= 0 {
        product / 65536000000
    } else {
        -((-product) / 65536000000)
    };
    let moved = at as i128 + step;
    if moved < -0x8000_0000 {
        -0x8000_0000
    } else if moved > 0x7fff_ffff {
        0x7fff_ffff
    } else {
        moved as i32
    }
}

/// Moves a point along a direction.
pub fn advance(position: Vec3, direction: Vec3, speed: i32, delta: u32) -> (r: Vec3)
    ensures
        r == advanced(position, direction, speed as int, delta as int),
{
    Vec3 {
        x: advance_coordinate(position.x, direction.x, speed, delta),
        y: advance_coordinate(position.y, direction.y, speed, delta),
        z: advance_coordinate(position.z, direction.z, speed, delta),
    }
}

} // verus!
