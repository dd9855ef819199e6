//! Projectiles.

use vstd::prelude::*;
use std::collections::HashSet;
use crate::fixed::{advance, advanced, Vec2, Vec3};
use crate::quad_tree::{region_contains, QuadTree};
use crate::tower::Damage;

verus! {

broadcast use vstd::std_specs::hash::group_hash_axioms;

/// A projectile in flight. Its direction was fixed when it was fired and
/// is never turned towards the target again. A position or direction of
/// `None` is degenerate: no direction could be given to it.
#[derive(Clone, Copy, Debug, PartialEq, Eq, Structural)]
pub struct Orb {
    pub entity: u64,
    pub translation: Option<Vec3>,
    pub direction: Option<Vec3>,
    pub target: Vec3,
    pub speed: i32,
    pub damage: Option<Damage>,
}

/// Whether a projectile is indexed in a leaf with these bounds: it has a
/// position, and the point of the ground below it lies within the bounds.
pub open spec fn orb_within(bounds: [Vec2; 2], orb: Orb) -> bool {
    orb.translation matches Some(at) && region_contains(bounds, at.x as int, at.z as int)
}

/// The handles of the projectiles that are indexed in a leaf with these
/// bounds.
pub open spec fn orbs_within(bounds: [Vec2; 2], orbs: Seq<Orb>) -> Set<u64> {
    Set::new(
        |h: u64|
            exists|j: int|
                0 <= j < orbs.len() && (#[trigger] orbs[j]).entity == h && orb_within(
                    bounds,
                    orbs[j],
                ),
    )
}

proof fn lemma_orbs_within_push(bounds: [Vec2; 2], orbs: Seq<Orb>, orb: Orb)
    ensures
        orbs_within(bounds, orbs.push(orb)) == if orb_within(bounds, orb) {
            orbs_within(bounds, orbs).insert(orb.entity)
        } else {
            orbs_within(bounds, orbs)
        },
{
    let longer = orbs.push(orb);
    let expected = if orb_within(bounds, orb) {
        orbs_within(bounds, orbs).insert(orb.entity)
    } else {
        orbs_within(bounds, orbs)
    };
    assert forall|h: u64| orbs_within(bounds, longer).contains(h) implies expected.contains(h) by {
        let j = choose|j: int|
            0 <= j < longer.len() && (#[trigger] longer[j]).entity == h && orb_within(
                bounds,
                longer[j],
            );
        if j < orbs.len() {
            assert(orbs[j] == longer[j]);
        }
    }
    assert forall|h: u64| expected.contains(h) implies orbs_within(bounds, longer).contains(h) by {
        if orbs_within(bounds, orbs).contains(h) {
            let j = choose|j: int|
                0 <= j < orbs.len() && (#[trigger] orbs[j]).entity == h && orb_within(
                    bounds,
                    orbs[j],
                );
            assert(longer[j] == orbs[j]);
        } else {
            assert(longer[orbs.len() as int] == orb);
        }
    }
    assert(orbs_within(bounds, longer) =~= expected);
}

/// Records every projectile in the leaf below which it flies. One that
/// has no position, or is outside the bounds of the tree, is left out for
/// this tick.
pub fn index_orbs(quad_tree: &mut QuadTree, orbs: &Vec<Orb>)
    requires
        old(quad_tree).well_formed(),
    ensures
        final(quad_tree).well_formed(),
        final(quad_tree).bounds == old(quad_tree).bounds,
        final(quad_tree).min_size == old(quad_tree).min_size,
        final(quad_tree)@.len() == old(quad_tree)@.len(),
        forall|k: int|
            0 <= k < old(quad_tree)@.len() ==> {
                &&& (#[trigger] final(quad_tree)@[k]).bounds == old(quad_tree)@[k].bounds
                &&& final(quad_tree)@[k].objects == old(quad_tree)@[k].objects.union(
                    orbs_within(old(quad_tree)@[k].bounds, orbs@),
                )
            },
{
    let ghost before = quad_tree@;
    let mut j: usize = 0;
    proof {
        assert forall|k: int| 0 <= k < before.len() implies (#[trigger] quad_tree@[k]).objects
            == before[k].objects.union(orbs_within(before[k].bounds, orbs@.take(0))) by {
            assert(orbs_within(before[k].bounds, orbs@.take(0)) =~= Set::<u64>::empty());
            assert(before[k].objects.union(Set::<u64>::empty()) =~= before[k].objects);
        }
    }
    while j < orbs.len()
        invariant
            j <= orbs@.len(),
            before == old(quad_tree)@,
            quad_tree.well_formed(),
            quad_tree.bounds == old(quad_tree).bounds,
            quad_tree.min_size == old(quad_tree).min_size,
            quad_tree@.len() == before.len(),
            forall|k: int|
                0 <= k < before.len() ==> {
                    &&& (#[trigger] quad_tree@[k]).bounds == before[k].bounds
                    &&& quad_tree@[k].objects == before[k].objects.union(
                        orbs_within(before[k].bounds, orbs@.take(j as int)),
                    )
                },
        decreases orbs@.len() - j,
    {
        let orb = orbs[j];
        let ghost current = quad_tree@;
        proof {
            assert(orbs@.take(j + 1) =~= orbs@.take(j as int).push(orb));
        }
        match orb.translation {
            Some(at) => {
                quad_tree.note(orb.entity, at.x as i64, at.z as i64);
            },
            None => {},
        }
        proof {
            assert forall|k: int| 0 <= k < before.len() implies {
                &&& (#[trigger] quad_tree@[k]).bounds == before[k].bounds
                &&& quad_tree@[k].objects == before[k].objects.union(
                    orbs_within(before[k].bounds, orbs@.take(j + 1)),
                )
            } by {
                lemma_orbs_within_push(before[k].bounds, orbs@.take(j as int), orb);
                assert(current[k].bounds == before[k].bounds);
                if orb.translation is Some {
                    assert(quad_tree@[k] == current[k].noting(
                        orb.translation->0.x as int,
                        orb.translation->0.z as int,
                        orb.entity,
                    ));
                }
                assert(quad_tree@[k].objects =~= before[k].objects.union(
                    orbs_within(before[k].bounds, orbs@.take(j + 1)),
                ));
            }
        }
        j += 1;
    }
    assert(orbs@.take(j as int) =~= orbs@);
}

/// Where a projectile is after `delta` microseconds. One without a
/// position or without a direction has no position afterwards.
pub open spec fn flown(orb: Orb, delta: int) -> Option<Vec3> {
    match (orb.translation, orb.direction) {
        (Some(at), Some(toward)) => Some(advanced(at, toward, orb.speed as int, delta)),
        _ => None,
    }
}

/// Moves every projectile by one tick of `delta` microseconds along the
/// direction in which it was fired.
pub fn move_orb(delta: u32, orbs: &mut Vec<Orb>)
    ensures
        final(orbs)@.len() == old(orbs)@.len(),
        forall|j: int|
            0 <= j < old(orbs)@.len() ==> #[trigger] final(orbs)@[j] == (Orb {
                translation: flown(old(orbs)@[j], delta as int),
                ..old(orbs)@[j]
            }),
{
    let ghost before = orbs@;
    let mut j: usize = 0;
    while j < orbs.len()
        invariant
            j <= before.len(),
            before == old(orbs)@,
            orbs@.len() == before.len(),
            forall|w: int|
                0 <= w < j ==> #[trigger] orbs@[w] == (Orb {
                    translation: flown(before[w], delta as int),
                    ..before[w]
                }),
            forall|w: int| j <= w < before.len() ==> #[trigger] orbs@[w] == before[w],
        decreases before.len() - j,
    {
        let orb = orbs[j];
        let translation = match (orb.translation, orb.direction) {
            (Some(at), Some(toward)) => Some(advance(at, toward, orb.speed, delta)),
            _ => None,
        };
        orbs.set(
            j,
            Orb {
                entity: orb.entity,
                translation,
                direction: orb.direction,
                target: orb.target,
                speed: orb.speed,
                damage: orb.damage,
            },
        );
        j += 1;
    }
}

/// Whether a projectile has passed below the ground.
pub open spec fn below_ground(orb: Orb) -> bool {
    orb.translation matches Some(at) && at.y < 0
}

/// The handles of the projectiles that have passed below the ground.
pub open spec fn grounded(orbs: Seq<Orb>) -> Set<u64> {
    Set::new(
        |h: u64|
            exists|j: int| 0 <= j < orbs.len() && (#[trigger] orbs[j]).entity == h && below_ground(orbs[j]),
    )
}

/// Marks for removal every projectile that has passed below the ground.
/// A projectile without a position is never marked.
pub fn despawn_reach_ground(orbs: &Vec<Orb>) -> (marked: HashSet<u64>)
    ensures
        marked@ == grounded(orbs@),
{
    let mut marked: HashSet<u64> = HashSet::new();
    let mut j: usize = 0;
    assert(marked@ =~= grounded(orbs@.take(0)));
    while j < orbs.len()
        invariant
            j <= orbs@.len(),
            marked@ == grounded(orbs@.take(j as int)),
        decreases orbs@.len() - j,
    {
        let orb = orbs[j];
        match orb.translation {
            Some(at) => {
                if at.y < 0 {
                    marked.insert(orb.entity);
                }
            },
            None => {},
        }
        proof {
            let shorter = orbs@.take(j as int);
            let longer = orbs@.take(j + 1);
            assert forall|h: u64| marked@.contains(h) implies grounded(longer).contains(h) by {
                if grounded(shorter).contains(h) {
                    let w = choose|w: int|
                        0 <= w < shorter.len() && (#[trigger] shorter[w]).entity == h
                            && below_ground(shorter[w]);
                    assert(longer[w] == shorter[w]);
                } else {
                    assert(longer[j as int] == orb);
                }
            }
            assert forall|h: u64| grounded(longer).contains(h) implies marked@.contains(h) by {
                let w = choose|w: int|
                    0 <= w < longer.len() && (#[trigger] longer[w]).entity == h && below_ground(
                        longer[w],
                    );
                if w < j {
                    assert(shorter[w] == longer[w]);
                }
            }
            assert(marked@ =~= grounded(longer));
        }
        j += 1;
    }
    assert(orbs@.take(j as int) =~= orbs@);
    marked
}

} // verus!
