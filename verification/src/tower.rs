//! Towers: target acquisition and firing.
//!
//! A tower has no memory of its targets. Each time its cooldown fires it
//! looks at every enemy anew and shoots at the nearest one in range. The
//! projectile is ballistic: it is aimed at where the target stands at
//! that instant and is not turned again.

use vstd::prelude::*;
use crate::cooldown::Cooldown;
use crate::enemy::Enemy;
use crate::fixed::{
    clamp_coordinate, closer_than, direction, direction_to, dist_sq, distance_squared,
    is_closer_than, Vec3,
};

verus! {

/// How far above a tower its projectiles start: two units.
pub const MUZZLE_HEIGHT: i32 = 131072;

/// The speed of a projectile: ten units a second.
pub const ORB_SPEED: i32 = 655360;

/// The cooldown between two shots of a tower.
#[derive(Clone, Copy, Debug, PartialEq, Eq, Structural)]
pub struct Shooting {
    pub timer: Cooldown,
}

/// How far a tower reaches.
#[derive(Clone, Copy, Debug, PartialEq, Eq, Structural)]
pub struct Range {
    pub range: i32,
}

/// The damage that a tower's projectiles carry.
#[derive(Clone, Copy, Debug, PartialEq, Eq, Structural)]
pub struct Damage {
    pub hp: usize,
}

/// A tower: where it stands, when it shoots, how far, and how hard. A
/// tower without damage shoots harmless projectiles.
#[derive(Clone, Copy, Debug, PartialEq, Eq, Structural)]
pub struct Tower {
    pub translation: Vec3,
    pub shooting: Shooting,
    pub range: Range,
    pub damage: Option<Damage>,
}

/// A projectile as it leaves a tower, before the arena gave it a handle.
#[derive(Clone, Copy, Debug, PartialEq, Eq, Structural)]
pub struct Shot {
    pub translation: Vec3,
    pub direction: Option<Vec3>,
    pub target: Vec3,
    pub speed: i32,
    pub damage: Option<Damage>,
}

/// Whether an enemy has a position closer to `from` than `range`.
pub open spec fn in_range(from: Vec3, range: int, enemy: Enemy) -> bool {
    enemy.translation matches Some(at) && closer_than(at, from, range)
}

/// Whether `enemies[at]` is the target of a tower at `from`: it is in
/// range, no enemy in range is nearer, and of the enemies in range that
/// are as near it comes first.
pub open spec fn is_target(from: Vec3, range: int, enemies: Seq<Enemy>, at: int) -> bool {
    &&& 0 <= at < enemies.len()
    &&& in_range(from, range, enemies[at])
    &&& forall|j: int|
        0 <= j < enemies.len() && in_range(from, range, #[trigger] enemies[j]) ==> dist_sq(
            enemies[at].translation->0,
            from,
        ) <= dist_sq(enemies[j].translation->0, from)
    &&& forall|j: int|
        0 <= j < at && in_range(from, range, #[trigger] enemies[j]) ==> dist_sq(
            enemies[at].translation->0,
            from,
        ) < dist_sq(enemies[j].translation->0, from)
}

/// Whether any enemy is in range.
pub open spec fn any_in_range(from: Vec3, range: int, enemies: Seq<Enemy>) -> bool {
    exists|j: int| 0 <= j < enemies.len() && in_range(from, range, #[trigger] enemies[j])
}

/// The point from which a tower at `from` shoots.
pub open spec fn muzzle(from: Vec3) -> Vec3 {
    Vec3 { x: from.x, y: clamp_coordinate(from.y + MUZZLE_HEIGHT), z: from.z }
}

/// The projectile that a tower shoots at a target that stands at
/// `target`.
pub open spec fn shot_at(tower: Tower, target: Vec3) -> Shot {
    Shot {
        translation: muzzle(tower.translation),
        direction: direction(muzzle(tower.translation), target),
        target,
        speed: ORB_SPEED,
        damage: tower.damage,
    }
}

/// Whether `shot` is what `tower` shoots at its target among `enemies`.
pub open spec fn aims(tower: Tower, enemies: Seq<Enemy>, shot: Shot) -> bool {
    exists|at: int|
        is_target(tower.translation, tower.range.range as int, enemies, at) && shot == shot_at(
            tower,
            #[trigger] enemies[at].translation->0,
        )
}

/// Finds the target of a tower: the nearest enemy in range, the first of
/// them where several are equally near. The order of the enemies decides
/// such a tie, and means nothing beyond that.
pub fn acquire(from: Vec3, range: i32, enemies: &Vec<Enemy>) -> (r: Option<usize>)
    ensures
        r matches Some(at) ==> is_target(from, range as int, enemies@, at as int),
        r is Some <==> any_in_range(from, range as int, enemies@),
{
    let mut target: Option<usize> = None;
    let mut nearest: u128 = 0;
    let mut j: usize = 0;
    while j < enemies.len()
        invariant
            j <= enemies@.len(),
            target matches Some(at) ==> at < j && is_target(
                from,
                range as int,
                enemies@.take(j as int),
                at as int,
            ) && nearest == dist_sq(enemies@[at as int].translation->0, from),
            target is None ==> forall|w: int|
                0 <= w < j ==> !in_range(from, range as int, #[trigger] enemies@[w]),
        decreases enemies@.len() - j,
    {
        let enemy = enemies[j];
        let ghost seen = enemies@.take(j as int);
        let ghost more = enemies@.take(j + 1);
        proof {
            assert(forall|w: int| 0 <= w < j ==> seen[w] == enemies@[w] && more[w] == enemies@[w]);
            assert(more[j as int] == enemy);
        }
        match enemy.translation {
            Some(at) => {
                if is_closer_than(at, from, range) {
                    let distance = distance_squared(at, from);
                    match target {
                        Some(_) => {
                            if distance < nearest {
                                target = Some(j);
                                nearest = distance;
                            }
                        },
                        None => {
                            target = Some(j);
                            nearest = distance;
                        },
                    }
                }
            },
            None => {},
        }
        proof {
            if target is Some {
                let at = target->0 as int;
                assert(is_target(from, range as int, more, at)) by {
                    assert(more[at] == enemies@[at]);
                    assert forall|w: int|
                        0 <= w < more.len() && in_range(
                            from,
                            range as int,
                            #[trigger] more[w],
                        ) implies dist_sq(more[at].translation->0, from) <= dist_sq(
                        more[w].translation->0,
                        from,
                    ) by {
                        if w < j {
                            assert(in_range(from, range as int, seen[w]));
                        }
                    }
                    assert forall|w: int|
                        0 <= w < at && in_range(from, range as int, #[trigger] more[w]) implies dist_sq(
                        more[at].translation->0,
                        from,
                    ) < dist_sq(more[w].translation->0, from) by {
                        assert(in_range(from, range as int, seen[w]));
                    }
                }
            }
        }
        j += 1;
    }
    proof {
        assert(enemies@.take(j as int) =~= enemies@);
        if target is Some {
            assert(in_range(from, range as int, enemies@[target->0 as int]));
        }
    }
    target
}

/// What a tower does when its cooldown has fired or not: it shoots at its
/// target if the cooldown fired and there is a target, and does nothing
/// otherwise.
pub fn fire(fired: bool, tower: &Tower, enemies: &Vec<Enemy>) -> (r: Option<Shot>)
    ensures
        r is Some <==> fired && any_in_range(
            tower.translation,
            tower.range.range as int,
            enemies@,
        ),
        r matches Some(shot) ==> aims(*tower, enemies@, shot),
{
    if !fired {
        return None;
    }
    match acquire(tower.translation, tower.range.range, enemies) {
        Some(at) => {
            let target = match enemies[at].translation {
                Some(target) => target,
                None => {
                    return None;
                },
            };
            let from = tower.translation;
            let lifted: i64 = from.y as i64 + MUZZLE_HEIGHT as i64;
            let start = Vec3 {
                x: from.x,
                y: if lifted > 0x7fff_ffff {
                    0x7fff_ffff
                } else {
                    lifted as i32
                },
                z: from.z,
            };
            let shot = Shot {
                translation: start,
                direction: direction_to(start, target),
                target,
                speed: ORB_SPEED,
                damage: tower.damage,
            };
            assert(is_target(tower.translation, tower.range.range as int, enemies@, at as int)
                && shot == shot_at(*tower, enemies@[at as int].translation->0));
            Some(shot)
        },
        None => None,
    }
}

/// Lets `delta` microseconds pass for every tower, and collects the
/// projectiles of those whose cooldown fired while an enemy was in range.
/// A tower whose cooldown fires with no enemy in range shoots nothing and
/// waits for the next firing.
pub fn tower_shoot(delta: u32, towers: &mut Vec<Tower>, enemies: &Vec<Enemy>) -> (shots: Vec<Shot>)
    requires
        forall|i: int|
            0 <= i < old(towers)@.len() ==> (#[trigger] old(towers)@[i]).shooting.timer.well_formed(),
    ensures
        final(towers)@.len() == old(towers)@.len(),
        forall|i: int|
            0 <= i < old(towers)@.len() ==> #[trigger] final(towers)@[i] == (Tower {
                shooting: Shooting { timer: old(towers)@[i].shooting.timer.after(delta as int) },
                ..old(towers)@[i]
            }) && final(towers)@[i].shooting.timer.well_formed(),
        shots@.len() == shooting(old(towers)@, enemies@, delta as int).len(),
        forall|n: int|
            0 <= n < shots@.len() ==> aims(
                shooting(old(towers)@, enemies@, delta as int)[n],
                enemies@,
                #[trigger] shots@[n],
            ),
{
    let ghost before = towers@;
    let mut shots: Vec<Shot> = Vec::new();
    let mut i: usize = 0;
    while i < towers.len()
        invariant
            i <= before.len(),
            before == old(towers)@,
            towers@.len() == before.len(),
            forall|w: int|
                0 <= w < before.len() ==> (#[trigger] before[w]).shooting.timer.well_formed(),
            forall|w: int|
                0 <= w < i ==> #[trigger] towers@[w] == (Tower {
                    shooting: Shooting { timer: before[w].shooting.timer.after(delta as int) },
                    ..before[w]
                }) && towers@[w].shooting.timer.well_formed(),
            forall|w: int| i <= w < before.len() ==> #[trigger] towers@[w] == before[w],
            shots@.len() == shooting(before.take(i as int), enemies@, delta as int).len(),
            forall|n: int|
                0 <= n < shots@.len() ==> aims(
                    shooting(before.take(i as int), enemies@, delta as int)[n],
                    enemies@,
                    #[trigger] shots@[n],
                ),
        decreases before.len() - i,
    {
        let mut tower = towers[i];
        assert(tower == before[i as int]);
        let fired = tower.shooting.timer.tick(delta);
        let ghost earlier = shooting(before.take(i as int), enemies@, delta as int);
        let ghost later = shooting(before.take(i + 1), enemies@, delta as int);
        let ghost sooner = shots@;
        proof {
            assert(before.take(i + 1).drop_last() =~= before.take(i as int));
            assert(before.take(i + 1).last() == before[i as int]);
        }
        match fire(fired, &tower, enemies) {
            Some(shot) => {
                shots.push(shot);
                proof {
                    assert(later == earlier.push(before[i as int]));
                    assert(aims(before[i as int], enemies@, shot)) by {
                        let at = choose|at: int|
                            is_target(tower.translation, tower.range.range as int, enemies@, at)
                                && shot == shot_at(tower, #[trigger] enemies@[at].translation->0);
                        assert(is_target(
                            before[i as int].translation,
                            before[i as int].range.range as int,
                            enemies@,
                            at,
                        ) && shot == shot_at(before[i as int], enemies@[at].translation->0));
                    }
                    assert forall|n: int| 0 <= n < shots@.len() implies aims(
                        later[n],
                        enemies@,
                        #[trigger] shots@[n],
                    ) by {
                        if n < earlier.len() {
                            assert(shots@[n] == sooner[n]);
                            assert(aims(earlier[n], enemies@, sooner[n]));
                        }
                    }
                }
            },
            None => {
                proof {
                    assert(later == earlier);
                }
            },
        }
        towers.set(i, tower);
        i += 1;
    }
    assert(before.take(i as int) =~= before);
    shots
}

/// The towers that shoot when `delta` microseconds pass, in their order:
/// those whose cooldown fires while an enemy is in range.
pub open spec fn shooting(towers: Seq<Tower>, enemies: Seq<Enemy>, delta: int) -> Seq<Tower>
    decreases towers.len(),
{
    if towers.len() == 0 {
        Seq::empty()
    } else {
        let earlier = shooting(towers.drop_last(), enemies, delta);
        let tower = towers.last();
        if tower.shooting.timer.fires(delta) && any_in_range(
            tower.translation,
            tower.range.range as int,
            enemies,
        ) {
            earlier.push(tower)
        } else {
            earlier
        }
    }
}

/// Towers that have no enemy in range shoot nothing, however long the
/// tick and whatever the state of their cooldowns.
pub proof fn lemma_idle_without_target(towers: Seq<Tower>, enemies: Seq<Enemy>, delta: int)
    requires
        forall|i: int|
            0 <= i < towers.len() ==> !any_in_range(
                (#[trigger] towers[i]).translation,
                towers[i].range.range as int,
                enemies,
            ),
    ensures
        shooting(towers, enemies, delta) == Seq::<Tower>::empty(),
    decreases towers.len(),
{
    if towers.len() != 0 {
        assert(forall|i: int| 0 <= i < towers.len() - 1 ==> towers.drop_last()[i] == towers[i]);
        lemma_idle_without_target(towers.drop_last(), enemies, delta);
        assert(towers.last() == towers[towers.len() - 1]);
    }
}

/// A tower with exactly one enemy in range shoots once each time its
/// cooldown fires, at that enemy, and not otherwise.
pub proof fn lemma_one_shot_per_period(tower: Tower, enemies: Seq<Enemy>, only: int, delta: int)
    requires
        0 <= only < enemies.len(),
        in_range(tower.translation, tower.range.range as int, enemies[only]),
        forall|j: int|
            0 <= j < enemies.len() && j != only ==> !in_range(
                tower.translation,
                tower.range.range as int,
                #[trigger] enemies[j],
            ),
    ensures
        is_target(tower.translation, tower.range.range as int, enemies, only),
        shooting(seq![tower], enemies, delta) == if tower.shooting.timer.fires(delta) {
            seq![tower]
        } else {
            Seq::<Tower>::empty()
        },
{
    let one = seq![tower];
    assert(one.drop_last() =~= Seq::<Tower>::empty());
    assert(one.last() == tower);
    assert(shooting(one.drop_last(), enemies, delta) =~= Seq::<Tower>::empty());
    assert(any_in_range(tower.translation, tower.range.range as int, enemies));
    assert(Seq::<Tower>::empty().push(tower) =~= seq![tower]);
}

} // verus!
