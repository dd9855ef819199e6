//! Enemies: flocking movement and indexing.

use vstd::prelude::*;
use crate::fixed::{
    advance, advanced, closer_than, direction, direction_to, is_closer_than, is_short, normalize,
    unit, Vec2, Vec3,
};
use crate::health::HealthPoints;
use crate::quad_tree::{region_contains, QuadTree};

verus! {

/// Half the side of the square footprint of an enemy: half a world unit.
pub const FOOTPRINT_HALF: i32 = 32768;

/// An enemy as the simulation tracks it. A position of `None` is
/// degenerate: the mover could give the enemy no direction, and from then
/// on it takes no part in movement, indexing, targeting or collisions.
#[derive(Clone, Copy, Debug, PartialEq, Eq, Structural)]
pub struct Enemy {
    pub entity: u64,
    pub translation: Option<Vec3>,
    pub health: HealthPoints,
}

/// Whether one of the four corners of the footprint of an enemy at `at`
/// lies within `bounds`.
pub open spec fn footprint_meets(bounds: [Vec2; 2], at: Vec3) -> bool {
    ||| region_contains(bounds, at.x - FOOTPRINT_HALF, at.z - FOOTPRINT_HALF)
    ||| region_contains(bounds, at.x + FOOTPRINT_HALF, at.z - FOOTPRINT_HALF)
    ||| region_contains(bounds, at.x - FOOTPRINT_HALF, at.z + FOOTPRINT_HALF)
    ||| region_contains(bounds, at.x + FOOTPRINT_HALF, at.z + FOOTPRINT_HALF)
}

/// Whether an enemy is indexed in a leaf with these bounds: it has a
/// position, and a corner of its footprint lies within the bounds.
pub open spec fn enemy_within(bounds: [Vec2; 2], enemy: Enemy) -> bool {
    enemy.translation matches Some(at) && footprint_meets(bounds, at)
}

/// The handles of the enemies that are indexed in a leaf with these
/// bounds.
pub open spec fn enemies_within(bounds: [Vec2; 2], enemies: Seq<Enemy>) -> Set<u64> {
    Set::new(
        |h: u64|
            exists|i: int|
                0 <= i < enemies.len() && (#[trigger] enemies[i]).entity == h && enemy_within(
                    bounds,
                    enemies[i],
                ),
    )
}

proof fn lemma_enemies_within_push(bounds: [Vec2; 2], enemies: Seq<Enemy>, enemy: Enemy)
    ensures
        enemies_within(bounds, enemies.push(enemy)) == if enemy_within(bounds, enemy) {
            enemies_within(bounds, enemies).insert(enemy.entity)
        } else {
            enemies_within(bounds, enemies)
        },
{
    let longer = enemies.push(enemy);
    let expected = if enemy_within(bounds, enemy) {
        enemies_within(bounds, enemies).insert(enemy.entity)
    } else {
        enemies_within(bounds, enemies)
    };
    assert forall|h: u64| enemies_within(bounds, longer).contains(h) implies expected.contains(
        h,
    ) by {
        let i = choose|i: int|
            0 <= i < longer.len() && (#[trigger] longer[i]).entity == h && enemy_within(
                bounds,
                longer[i],
            );
        if i < enemies.len() {
            assert(enemies[i] == longer[i]);
        }
    }
    assert forall|h: u64| expected.contains(h) implies enemies_within(bounds, longer).contains(
        h,
    ) by {
        if enemies_within(bounds, enemies).contains(h) {
            let i = choose|i: int|
                0 <= i < enemies.len() && (#[trigger] enemies[i]).entity == h && enemy_within(
                    bounds,
                    enemies[i],
                );
            assert(longer[i] == enemies[i]);
        } else {
            assert(longer[enemies.len() as int] == enemy);
        }
    }
    assert(enemies_within(bounds, longer) =~= expected);
}

/// Records every enemy in each leaf that holds a corner of its
/// footprint, so that a projectile anywhere above the footprint shares a
/// leaf with it. An enemy without a position is left out for this tick,
/// and so is a corner outside the bounds of the tree.
pub fn index_enemies(quad_tree: &mut QuadTree, enemies: &Vec<Enemy>)
    requires
        old(quad_tree).well_formed(),
    ensures
        final(quad_tree).well_formed(),
        final(quad_tree).bounds == old(quad_tree).bounds,
        final(quad_tree).min_size == old(quad_tree).min_size,
        final(quad_tree)@.len() == old(quad_tree)@.len(),
        forall|k: int|
            0 <= k < old(quad_tree)@.len() ==> {
                &&& (#[trigger] final(quad_tree)@[k]).bounds == old(quad_tree)@[k].bounds
                &&& final(quad_tree)@[k].objects == old(quad_tree)@[k].objects.union(
                    enemies_within(old(quad_tree)@[k].bounds, enemies@),
                )
            },
{
    let ghost before = quad_tree@;
    let mut i: usize = 0;
    proof {
        assert forall|k: int| 0 <= k < before.len() implies (#[trigger] quad_tree@[k]).objects
            == before[k].objects.union(enemies_within(before[k].bounds, enemies@.take(0))) by {
            assert(enemies_within(before[k].bounds, enemies@.take(0)) =~= Set::<u64>::empty());
            assert(before[k].objects.union(Set::<u64>::empty()) =~= before[k].objects);
        }
    }
    while i < enemies.len()
        invariant
            i <= enemies@.len(),
            before == old(quad_tree)@,
            quad_tree.well_formed(),
            quad_tree.bounds == old(quad_tree).bounds,
            quad_tree.min_size == old(quad_tree).min_size,
            quad_tree@.len() == before.len(),
            forall|k: int|
                0 <= k < before.len() ==> {
                    &&& (#[trigger] quad_tree@[k]).bounds == before[k].bounds
                    &&& quad_tree@[k].objects == before[k].objects.union(
                        enemies_within(before[k].bounds, enemies@.take(i as int)),
                    )
                },
        decreases enemies@.len() - i,
    {
        let enemy = enemies[i];
        let ghost current = quad_tree@;
        proof {
            assert(enemies@.take(i + 1) =~= enemies@.take(i as int).push(enemy));
        }
        match enemy.translation {
            Some(at) => {
                let x = at.x as i64;
                let z = at.z as i64;
                let half = FOOTPRINT_HALF as i64;
                quad_tree.note(enemy.entity, x - half, z - half);
                let ghost first = quad_tree@;
                quad_tree.note(enemy.entity, x + half, z - half);
                let ghost second = quad_tree@;
                quad_tree.note(enemy.entity, x - half, z + half);
                let ghost third = quad_tree@;
                quad_tree.note(enemy.entity, x + half, z + half);
                proof {
                    assert forall|k: int| 0 <= k < before.len() implies {
                        &&& (#[trigger] quad_tree@[k]).bounds == current[k].bounds
                        &&& quad_tree@[k].objects == if enemy_within(current[k].bounds, enemy) {
                            current[k].objects.insert(enemy.entity)
                        } else {
                            current[k].objects
                        }
                    } by {
                        assert(first[k] == current[k].noting(x - half, z - half, enemy.entity));
                        assert(second[k] == first[k].noting(x + half, z - half, enemy.entity));
                        assert(third[k] == second[k].noting(x - half, z + half, enemy.entity));
                        assert(quad_tree@[k] == third[k].noting(x + half, z + half, enemy.entity));
                        assert(quad_tree@[k].objects =~= if enemy_within(current[k].bounds, enemy) {
                            current[k].objects.insert(enemy.entity)
                        } else {
                            current[k].objects
                        });
                    }
                }
            },
            None => {},
        }
        proof {
            assert forall|k: int| 0 <= k < before.len() implies {
                &&& (#[trigger] quad_tree@[k]).bounds == before[k].bounds
                &&& quad_tree@[k].objects == before[k].objects.union(
                    enemies_within(before[k].bounds, enemies@.take(i + 1)),
                )
            } by {
                lemma_enemies_within_push(before[k].bounds, enemies@.take(i as int), enemy);
                assert(current[k].bounds == before[k].bounds);
                assert(quad_tree@[k].objects =~= before[k].objects.union(
                    enemies_within(before[k].bounds, enemies@.take(i + 1)),
                ));
            }
        }
        i += 1;
    }
    assert(enemies@.take(i as int) =~= enemies@);
}

/// Enemies closer than this push each other apart: one and a half units.
pub const SEPARATION_RADIUS: i32 = 98304;

/// Enemies closer than this pull each other together: six units.
pub const COHESION_RADIUS: i32 = 393216;

/// The speed of an enemy: half a unit a second.
pub const ENEMY_SPEED: i32 = 32768;

/// How much each pull counts when an enemy picks its heading.
#[derive(Clone, Copy, Debug, PartialEq, Eq, Structural)]
pub struct Weights {
    pub goal: u8,
    pub separation: u8,
    pub cohesion: u8,
}

/// The point that the enemies make for: half a unit above the origin.
pub open spec fn goal_point() -> Vec3 {
    Vec3 { x: 0, y: 32768, z: 0 }
}

/// The weights of the arena: five for the goal, one each for separation
/// and cohesion.
pub open spec fn standard_weights() -> Weights {
    Weights { goal: 5, separation: 1, cohesion: 1 }
}

/// Whether two enemies have positions closer than `radius`.
pub open spec fn near(a: Option<Vec3>, b: Option<Vec3>, radius: int) -> bool {
    a matches Some(p) && b matches Some(q) && closer_than(p, q, radius)
}

/// A running sum of directions after one more direction was added to it
/// and the sum brought back to unit length. No sum recovers from a
/// direction that does not exist, nor from cancelling out.
pub open spec fn steered(sum: Option<Vec3>, toward: Option<Vec3>) -> Option<Vec3> {
    match (sum, toward) {
        (Some(s), Some(d)) => unit(s.x + d.x, s.y + d.y, s.z + d.z),
        _ => None,
    }
}

/// The push that `me` feels away from the `others` that are closer than
/// the separation radius, taken one by one in their order. The sum is
/// brought back to unit length after each of them, so that the later
/// ones count for more.
pub open spec fn separation(me: Enemy, others: Seq<Enemy>) -> Option<Vec3>
    decreases others.len(),
{
    if others.len() == 0 {
        Some(Vec3 { x: 0, y: 0, z: 0 })
    } else {
        let sum = separation(me, others.drop_last());
        let other = others.last();
        if other.entity != me.entity && near(
            me.translation,
            other.translation,
            SEPARATION_RADIUS as int,
        ) {
            steered(sum, direction(other.translation->0, me.translation->0))
        } else {
            sum
        }
    }
}

/// The pull that `me` feels towards the `others` that are closer than
/// the cohesion radius, summed as the separation is.
pub open spec fn cohesion(me: Enemy, others: Seq<Enemy>) -> Option<Vec3>
    decreases others.len(),
{
    if others.len() == 0 {
        Some(Vec3 { x: 0, y: 0, z: 0 })
    } else {
        let sum = cohesion(me, others.drop_last());
        let other = others.last();
        if other.entity != me.entity && near(
            me.translation,
            other.translation,
            COHESION_RADIUS as int,
        ) {
            steered(sum, direction(me.translation->0, other.translation->0))
        } else {
            sum
        }
    }
}

/// The direction from an enemy to the goal.
pub open spec fn goal_seek(me: Enemy) -> Option<Vec3> {
    match me.translation {
        Some(at) => direction(at, goal_point()),
        None => None,
    }
}

/// The heading that the three pulls give: their weighted sum at unit
/// length.
pub open spec fn heading(
    weights: Weights,
    goal: Option<Vec3>,
    apart: Option<Vec3>,
    together: Option<Vec3>,
) -> Option<Vec3> {
    match (goal, apart, together) {
        (Some(g), Some(s), Some(c)) => unit(
            weights.goal * g.x + weights.separation * s.x + weights.cohesion * c.x,
            weights.goal * g.y + weights.separation * s.y + weights.cohesion * c.y,
            weights.goal * g.z + weights.separation * s.z + weights.cohesion * c.z,
        ),
        _ => None,
    }
}

/// Where `me` is after one tick among `others`. An enemy without a
/// position stays without one, and an enemy whose heading does not exist
/// loses its position.
pub open spec fn moved(weights: Weights, me: Enemy, others: Seq<Enemy>, delta: int) -> Option<
    Vec3,
> {
    match (
        me.translation,
        heading(weights, goal_seek(me), separation(me, others), cohesion(me, others)),
    ) {
        (Some(at), Some(toward)) => Some(advanced(at, toward, ENEMY_SPEED as int, delta)),
        _ => None,
    }
}

fn steer(sum: Option<Vec3>, toward: Option<Vec3>) -> (r: Option<Vec3>)
    requires
        sum matches Some(s) ==> is_short(s),
        toward matches Some(d) ==> is_short(d),
    ensures
        r == steered(sum, toward),
        r matches Some(v) ==> is_short(v),
{
    match (sum, toward) {
        (Some(s), Some(d)) => normalize(
            s.x as i64 + d.x as i64,
            s.y as i64 + d.y as i64,
            s.z as i64 + d.z as i64,
        ),
        _ => None,
    }
}

fn is_near(a: Option<Vec3>, b: Option<Vec3>, radius: i32) -> (r: bool)
    ensures
        r == near(a, b, radius as int),
{
    match (a, b) {
        (Some(p), Some(q)) => is_closer_than(p, q, radius),
        _ => false,
    }
}

/// Computes the separation and the cohesion that an enemy feels.
fn pulls(me: Enemy, others: &Vec<Enemy>) -> (r: (Option<Vec3>, Option<Vec3>))
    ensures
        r.0 == separation(me, others@),
        r.1 == cohesion(me, others@),
        r.0 matches Some(v) ==> is_short(v),
        r.1 matches Some(v) ==> is_short(v),
{
    let mut apart: Option<Vec3> = Some(Vec3 { x: 0, y: 0, z: 0 });
    let mut together: Option<Vec3> = Some(Vec3 { x: 0, y: 0, z: 0 });
    let mut j: usize = 0;
    while j < others.len()
        invariant
            j <= others@.len(),
            apart == separation(me, others@.take(j as int)),
            together == cohesion(me, others@.take(j as int)),
            apart matches Some(v) ==> is_short(v),
            together matches Some(v) ==> is_short(v),
        decreases others@.len() - j,
    {
        let other = others[j];
        proof {
            assert(others@.take(j + 1).drop_last() =~= others@.take(j as int));
            assert(others@.take(j + 1).last() == other);
        }
        if other.entity != me.entity {
            if is_near(me.translation, other.translation, SEPARATION_RADIUS) {
                match (me.translation, other.translation) {
                    (Some(mine), Some(theirs)) => {
                        apart = steer(apart, direction_to(theirs, mine));
                    },
                    _ => {},
                }
            }
            if is_near(me.translation, other.translation, COHESION_RADIUS) {
                match (me.translation, other.translation) {
                    (Some(mine), Some(theirs)) => {
                        together = steer(together, direction_to(mine, theirs));
                    },
                    _ => {},
                }
            }
        }
        j += 1;
    }
    assert(others@.take(j as int) =~= others@);
    (apart, together)
}

/// Computes where an enemy is after one tick.
fn move_one(weights: Weights, me: Enemy, others: &Vec<Enemy>, delta: u32) -> (r: Option<Vec3>)
    ensures
        r == moved(weights, me, others@, delta as int),
{
    let at = match me.translation {
        Some(at) => at,
        None => {
            return None;
        },
    };
    let goal = direction_to(at, Vec3 { x: 0, y: 32768, z: 0 });
    let (apart, together) = pulls(me, others);
    match (goal, apart, together) {
        (Some(g), Some(s), Some(c)) => {
            let wg = weights.goal as i64;
            let ws = weights.separation as i64;
            let wc = weights.cohesion as i64;
            assert(-255 * 65536 <= wg * g.x <= 255 * 65536 && -255 * 65536 <= wg * g.y <= 255
                * 65536 && -255 * 65536 <= wg * g.z <= 255 * 65536) by (nonlinear_arith)
                requires
                    0 <= wg <= 255,
                    is_short(g),
            ;
            assert(-255 * 65536 <= ws * s.x <= 255 * 65536 && -255 * 65536 <= ws * s.y <= 255
                * 65536 && -255 * 65536 <= ws * s.z <= 255 * 65536) by (nonlinear_arith)
                requires
                    0 <= ws <= 255,
                    is_short(s),
            ;
            assert(-255 * 65536 <= wc * c.x <= 255 * 65536 && -255 * 65536 <= wc * c.y <= 255
                * 65536 && -255 * 65536 <= wc * c.z <= 255 * 65536) by (nonlinear_arith)
                requires
                    0 <= wc <= 255,
                    is_short(c),
            ;
            let toward = normalize(
                wg * g.x as i64 + ws * s.x as i64 + wc * c.x as i64,
                wg * g.y as i64 + ws * s.y as i64 + wc * c.y as i64,
                wg * g.z as i64 + ws * s.z as i64 + wc * c.z as i64,
            );
            match toward {
                Some(toward) => Some(advance(at, toward, ENEMY_SPEED, delta)),
                None => None,
            }
        },
        _ => None,
    }
}

/// Moves every enemy by one tick of `delta` microseconds, with the pulls
/// weighted as `weights` says. Every enemy is moved from where all of
/// them stood before the tick: none sees another's new position.
pub fn flock(weights: Weights, delta: u32, enemies: &mut Vec<Enemy>)
    ensures
        final(enemies)@.len() == old(enemies)@.len(),
        forall|i: int|
            0 <= i < old(enemies)@.len() ==> #[trigger] final(enemies)@[i] == (Enemy {
                entity: old(enemies)@[i].entity,
                translation: moved(weights, old(enemies)@[i], old(enemies)@, delta as int),
                health: old(enemies)@[i].health,
            }),
{
    let mut after: Vec<Enemy> = Vec::new();
    let mut i: usize = 0;
    while i < enemies.len()
        invariant
            i <= enemies@.len(),
            enemies@ == old(enemies)@,
            after@.len() == i,
            forall|w: int|
                0 <= w < i ==> #[trigger] after@[w] == (Enemy {
                    entity: enemies@[w].entity,
                    translation: moved(weights, enemies@[w], enemies@, delta as int),
                    health: enemies@[w].health,
                }),
        decreases enemies@.len() - i,
    {
        let me = enemies[i];
        let translation = move_one(weights, me, enemies, delta);
        after.push(Enemy { entity: me.entity, translation, health: me.health });
        i += 1;
    }
    *enemies = after;
}

/// Moves every enemy by one tick of `delta` microseconds: five parts
/// towards the goal, one part away from the neighbours that crowd it, one
/// part towards the neighbours in view.
pub fn enemy_move(delta: u32, enemies: &mut Vec<Enemy>)
    ensures
        final(enemies)@.len() == old(enemies)@.len(),
        forall|i: int|
            0 <= i < old(enemies)@.len() ==> #[trigger] final(enemies)@[i] == (Enemy {
                entity: old(enemies)@[i].entity,
                translation: moved(
                    standard_weights(),
                    old(enemies)@[i],
                    old(enemies)@,
                    delta as int,
                ),
                health: old(enemies)@[i].health,
            }),
{
    flock(Weights { goal: 5, separation: 1, cohesion: 1 }, delta, enemies);
}

} // verus!
