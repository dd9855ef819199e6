//! Hit points.

use vstd::prelude::*;
use crate::cooldown::Cooldown;

verus! {

/// Hit points of an enemy, and the most that it was given. An enemy lives
/// while `hp` is above zero.
#[derive(Clone, Copy, Debug, PartialEq, Eq, Structural)]
pub struct HealthPoints {
    pub hp: usize,
    pub max_hp: usize,
}

/// Hit points that are left of `hp` after `damage`: never below zero.
pub open spec fn hp_after(hp: nat, damage: nat) -> nat {
    if damage >= hp {
        0
    } else {
        (hp - damage) as nat
    }
}

/// Hit points that come back each time a cooldown fires.
#[derive(Clone, Copy, Debug, PartialEq, Eq, Structural)]
pub struct Regen {
    pub hp: usize,
    pub timer: Cooldown,
}

/// The hit points after `delta` microseconds: if the cooldown of `regen`
/// fires while they are below the maximum, they grow by what `regen`
/// gives, but not beyond the maximum. Otherwise they stay as they are.
pub open spec fn regenerated(health: HealthPoints, regen: Regen, delta: int) -> int {
    if regen.timer.fires(delta) && health.hp < health.max_hp {
        if health.hp + regen.hp <= health.max_hp {
            health.hp + regen.hp
        } else {
            health.max_hp as int
        }
    } else {
        health.hp as int
    }
}

/// Lets `delta` microseconds pass for the regeneration of one object.
/// Hit points that were within the maximum stay within it.
pub fn regen_health(delta: u32, health: &mut HealthPoints, regen: &mut Regen)
    requires
        old(regen).timer.well_formed(),
    ensures
        final(regen).timer == old(regen).timer.after(delta as int),
        final(regen).timer.well_formed(),
        final(regen).hp == old(regen).hp,
        final(health).max_hp == old(health).max_hp,
        final(health).hp == regenerated(*old(health), *old(regen), delta as int),
        old(health).hp <= old(health).max_hp ==> final(health).hp <= final(health).max_hp,
{
    let fired = regen.timer.tick(delta);
    if fired && health.hp < health.max_hp {
        let room = health.max_hp - health.hp;
        if regen.hp < room {
            health.hp = health.hp + regen.hp;
        } else {
            health.hp = health.max_hp;
        }
    }
}

} // verus!
