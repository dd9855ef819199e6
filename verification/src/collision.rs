//! Contact between enemies and projectiles: who is hit, what it costs,
//! and who leaves the arena.
//!
//! Two resolvers do the same work. [`take_damage_n2`] tests every enemy
//! against every projectile. [`take_damage`] tests only those that share a
//! leaf of the spatial index. Both are stated over one model: a sequence
//! of cells, each a set of handles, within which pairs are tested. The
//! exhaustive resolver is the case of a single cell that holds everything.

use vstd::prelude::*;
use std::collections::HashSet;
use crate::enemy::{
    enemies_within, enemy_within, footprint_meets, index_enemies, Enemy, FOOTPRINT_HALF,
};
use crate::fixed::{closer_than, dist_sq, is_closer_than, Vec2, Vec3};
use crate::health::{hp_after, HealthPoints};
use crate::orb::{index_orbs, orb_within, orbs_within, Orb};
use crate::quad_tree::{
    depth, lemma_exactly_one_leaf, lemma_leaves_keep_room, lemma_vacant_view, region_contains,
    spacious, width, Leaf, QuadTree,
};

verus! {

broadcast use vstd::std_specs::hash::group_hash_axioms;

/// An enemy and a projectile closer than this touch: half a world unit.
pub const CONTACT_RADIUS: i32 = 32768;

/// The handles marked for removal by one pass of a resolver. Nothing is
/// removed during the pass itself.
pub struct Despawn {
    pub enemies: HashSet<u64>,
    pub orbs: HashSet<u64>,
}

/// Whether two objects touch. A degenerate position touches nothing.
pub open spec fn in_contact(a: Option<Vec3>, b: Option<Vec3>) -> bool {
    a matches Some(p) && b matches Some(q) && closer_than(p, q, CONTACT_RADIUS as int)
}

/// The hit points that a projectile takes from what it hits.
pub open spec fn payload(orb: Orb) -> nat {
    match orb.damage {
        Some(damage) => damage.hp as nat,
        None => 0,
    }
}

/// Whether `orb` is tested against an object at `position` within the
/// cell `present`, and touches it.
pub open spec fn strikes(position: Option<Vec3>, orb: Orb, present: Set<u64>) -> bool {
    present.contains(orb.entity) && in_contact(position, orb.translation)
}

/// The sum of the payloads of the projectiles of the cell `present` that
/// touch an object at `position`.
pub open spec fn damage_among(position: Option<Vec3>, orbs: Seq<Orb>, present: Set<u64>) -> nat
    decreases orbs.len(),
{
    if orbs.len() == 0 {
        0
    } else {
        damage_among(position, orbs.drop_last(), present) + if strikes(
            position,
            orbs.last(),
            present,
        ) {
            payload(orbs.last())
        } else {
            0
        }
    }
}

/// The handles of the projectiles of the cell `present` that touch an
/// object at `position`.
pub open spec fn struck_among(position: Option<Vec3>, orbs: Seq<Orb>, present: Set<u64>) -> Set<
    u64,
> {
    Set::new(
        |h: u64|
            exists|j: int| 0 <= j < orbs.len() && (#[trigger] orbs[j]).entity == h && strikes(position, orbs[j], present),
    )
}

/// The damage that an enemy takes within one cell.
pub open spec fn damage_in_cell(cell: Set<u64>, enemy: Enemy, orbs: Seq<Orb>) -> nat {
    if cell.contains(enemy.entity) {
        damage_among(enemy.translation, orbs, cell)
    } else {
        0
    }
}

/// The damage that an enemy takes in one pass: in each cell that holds
/// its handle, the payloads of the projectiles of that cell that touch it.
pub open spec fn damage_taken(cells: Seq<Set<u64>>, enemy: Enemy, orbs: Seq<Orb>) -> nat
    decreases cells.len(),
{
    if cells.len() == 0 {
        0
    } else {
        damage_taken(cells.drop_last(), enemy, orbs) + damage_in_cell(cells.last(), enemy, orbs)
    }
}

/// The handles of the projectiles that touch an enemy with which they
/// share a cell.
pub open spec fn orbs_hit(cells: Seq<Set<u64>>, enemies: Seq<Enemy>, orbs: Seq<Orb>) -> Set<u64> {
    Set::new(
        |h: u64|
            exists|k: int, i: int, j: int|
                0 <= k < cells.len() && 0 <= i < enemies.len() && 0 <= j < orbs.len()
                    && #[trigger] cells[k].contains((#[trigger] enemies[i]).entity)
                    && (#[trigger] orbs[j]).entity == h && strikes(
                    enemies[i].translation,
                    orbs[j],
                    cells[k],
                ),
    )
}

/// The handles of the enemies that have no hit points left.
pub open spec fn fallen(enemies: Seq<Enemy>) -> Set<u64> {
    Set::new(
        |h: u64|
            exists|i: int|
                0 <= i < enemies.len() && (#[trigger] enemies[i]).entity == h
                    && enemies[i].health.hp == 0,
    )
}

/// An enemy after it took `damage`.
pub open spec fn struck(enemy: Enemy, damage: nat) -> Enemy {
    Enemy {
        entity: enemy.entity,
        translation: enemy.translation,
        health: HealthPoints {
            hp: hp_after(enemy.health.hp as nat, damage) as usize,
            max_hp: enemy.health.max_hp,
        },
    }
}

/// The single cell of the exhaustive resolver: every handle is in it.
pub open spec fn everywhere() -> Seq<Set<u64>> {
    seq![Set::full()]
}

/// The cells of a spatial index: the handle sets of its leaves.
pub open spec fn cells_of(leaves: Seq<Leaf>) -> Seq<Set<u64>> {
    Seq::new(leaves.len(), |k: int| leaves[k].objects)
}

/// Tests whether two objects touch.
pub fn touches(a: Option<Vec3>, b: Option<Vec3>) -> (r: bool)
    ensures
        r == in_contact(a, b),
{
    match (a, b) {
        (Some(p), Some(q)) => is_closer_than(p, q, CONTACT_RADIUS),
        _ => false,
    }
}

/// The handles among which a pass tests: those of a cell of the index,
/// or all of them.
pub open spec fn cell_handles(cell: Option<&HashSet<u64>>) -> Set<u64> {
    match cell {
        Some(set) => set@,
        None => Set::full(),
    }
}

proof fn lemma_struck_among_push(
    position: Option<Vec3>,
    orbs: Seq<Orb>,
    orb: Orb,
    present: Set<u64>,
)
    ensures
        struck_among(position, orbs.push(orb), present) == if strikes(position, orb, present) {
            struck_among(position, orbs, present).insert(orb.entity)
        } else {
            struck_among(position, orbs, present)
        },
{
    let longer = orbs.push(orb);
    let expected = if strikes(position, orb, present) {
        struck_among(position, orbs, present).insert(orb.entity)
    } else {
        struck_among(position, orbs, present)
    };
    assert forall|h: u64| struck_among(position, longer, present).contains(h) implies expected.contains(
        h,
    ) by {
        let j = choose|j: int|
            0 <= j < longer.len() && (#[trigger] longer[j]).entity == h && strikes(
                position,
                longer[j],
                present,
            );
        if j < orbs.len() {
            assert(orbs[j] == longer[j]);
        }
    }
    assert forall|h: u64| expected.contains(h) implies struck_among(position, longer, present).contains(
        h,
    ) by {
        if struck_among(position, orbs, present).contains(h) {
            let j = choose|j: int|
                0 <= j < orbs.len() && (#[trigger] orbs[j]).entity == h && strikes(
                    position,
                    orbs[j],
                    present,
                );
            assert(longer[j] == orbs[j]);
        } else {
            assert(longer[orbs.len() as int] == orb);
        }
    }
    assert(struck_among(position, longer, present) =~= expected);
}

/// Tests one object against the projectiles of a cell: marks those that
/// touch it and takes their payloads from its hit points.
fn strike_row(
    position: Option<Vec3>,
    hp: usize,
    orbs: &Vec<Orb>,
    cell: Option<&HashSet<u64>>,
    hit: &mut HashSet<u64>,
) -> (left: usize)
    ensures
        left == hp_after(hp as nat, damage_among(position, orbs@, cell_handles(cell))),
        final(hit)@ == old(hit)@.union(struck_among(position, orbs@, cell_handles(cell))),
{
    let ghost present = cell_handles(cell);
    let mut left = hp;
    let mut j: usize = 0;
    proof {
        assert(struck_among(position, orbs@.take(0), present) =~= Set::<u64>::empty());
        assert(hit@.union(Set::<u64>::empty()) =~= hit@);
    }
    while j < orbs.len()
        invariant
            j <= orbs@.len(),
            present == cell_handles(cell),
            left == hp_after(hp as nat, damage_among(position, orbs@.take(j as int), present)),
            hit@ == old(hit)@.union(struck_among(position, orbs@.take(j as int), present)),
        decreases orbs@.len() - j,
    {
        let orb = orbs[j];
        let here = match cell {
            Some(set) => set.contains(&orb.entity),
            None => true,
        };
        proof {
            assert(orbs@.take(j + 1) =~= orbs@.take(j as int).push(orb));
            assert(orbs@.take(j + 1).drop_last() =~= orbs@.take(j as int));
            lemma_struck_among_push(position, orbs@.take(j as int), orb, present);
        }
        if here && touches(position, orb.translation) {
            hit.insert(orb.entity);
            if let Some(damage) = orb.damage {
                left = left.saturating_sub(damage.hp);
            }
            assert(hit@ =~= old(hit)@.union(struck_among(position, orbs@.take(j + 1), present)));
        }
        j += 1;
    }
    assert(orbs@.take(j as int) =~= orbs@);
    left
}

/// Marks every enemy that has no hit points left.
fn mark_fallen(enemies: &Vec<Enemy>) -> (marked: HashSet<u64>)
    ensures
        marked@ == fallen(enemies@),
{
    let mut marked: HashSet<u64> = HashSet::new();
    let mut i: usize = 0;
    assert(marked@ =~= fallen(enemies@.take(0)));
    while i < enemies.len()
        invariant
            i <= enemies@.len(),
            marked@ == fallen(enemies@.take(i as int)),
        decreases enemies@.len() - i,
    {
        let enemy = enemies[i];
        if enemy.health.hp == 0 {
            marked.insert(enemy.entity);
        }
        proof {
            let shorter = enemies@.take(i as int);
            let longer = enemies@.take(i + 1);
            assert forall|h: u64| marked@.contains(h) implies fallen(longer).contains(h) by {
                if fallen(shorter).contains(h) {
                    let w = choose|w: int|
                        0 <= w < shorter.len() && (#[trigger] shorter[w]).entity == h
                            && shorter[w].health.hp == 0;
                    assert(longer[w] == shorter[w]);
                } else {
                    assert(longer[i as int] == enemy);
                }
            }
            assert forall|h: u64| fallen(longer).contains(h) implies marked@.contains(h) by {
                let w = choose|w: int|
                    0 <= w < longer.len() && (#[trigger] longer[w]).entity == h
                        && longer[w].health.hp == 0;
                if w < i {
                    assert(shorter[w] == longer[w]);
                }
            }
            assert(marked@ =~= fallen(longer));
        }
        i += 1;
    }
    assert(enemies@.take(i as int) =~= enemies@);
    marked
}

/// Whether two rows describe the same enemies in the same places,
/// whatever their hit points.
pub open spec fn same_bodies(a: Seq<Enemy>, b: Seq<Enemy>) -> bool {
    &&& a.len() == b.len()
    &&& forall|i: int|
        0 <= i < a.len() ==> (#[trigger] a[i]).entity == b[i].entity && a[i].translation
            == b[i].translation
}

proof fn lemma_orbs_hit_same_bodies(
    cells: Seq<Set<u64>>,
    a: Seq<Enemy>,
    b: Seq<Enemy>,
    orbs: Seq<Orb>,
)
    requires
        same_bodies(a, b),
    ensures
        orbs_hit(cells, a, orbs) == orbs_hit(cells, b, orbs),
{
    assert forall|h: u64| orbs_hit(cells, a, orbs).contains(h) implies orbs_hit(
        cells,
        b,
        orbs,
    ).contains(h) by {
        let (k, i, j) = choose|k: int, i: int, j: int|
            0 <= k < cells.len() && 0 <= i < a.len() && 0 <= j < orbs.len()
                && #[trigger] cells[k].contains((#[trigger] a[i]).entity) && (#[trigger] orbs[j]).entity
                == h && strikes(a[i].translation, orbs[j], cells[k]);
        assert(cells[k].contains(b[i].entity) && orbs[j].entity == h);
    }
    assert forall|h: u64| orbs_hit(cells, b, orbs).contains(h) implies orbs_hit(
        cells,
        a,
        orbs,
    ).contains(h) by {
        let (k, i, j) = choose|k: int, i: int, j: int|
            0 <= k < cells.len() && 0 <= i < b.len() && 0 <= j < orbs.len()
                && #[trigger] cells[k].contains((#[trigger] b[i]).entity) && (#[trigger] orbs[j]).entity
                == h && strikes(b[i].translation, orbs[j], cells[k]);
        assert(cells[k].contains(a[i].entity) && orbs[j].entity == h);
    }
    assert(orbs_hit(cells, a, orbs) =~= orbs_hit(cells, b, orbs));
}

/// In one cell, one more enemy adds the projectiles that strike it there.
proof fn lemma_orbs_hit_push_enemy(cell: Set<u64>, enemies: Seq<Enemy>, enemy: Enemy, orbs: Seq<Orb>)
    ensures
        orbs_hit(seq![cell], enemies.push(enemy), orbs) == orbs_hit(seq![cell], enemies, orbs).union(
            if cell.contains(enemy.entity) {
                struck_among(enemy.translation, orbs, cell)
            } else {
                Set::empty()
            },
        ),
{
    let cells = seq![cell];
    let longer = enemies.push(enemy);
    let extra = if cell.contains(enemy.entity) {
        struck_among(enemy.translation, orbs, cell)
    } else {
        Set::empty()
    };
    let expected = orbs_hit(cells, enemies, orbs).union(extra);
    assert forall|h: u64| orbs_hit(cells, longer, orbs).contains(h) implies expected.contains(h) by {
        let (k, i, j) = choose|k: int, i: int, j: int|
            0 <= k < cells.len() && 0 <= i < longer.len() && 0 <= j < orbs.len()
                && #[trigger] cells[k].contains((#[trigger] longer[i]).entity)
                && (#[trigger] orbs[j]).entity == h && strikes(
                longer[i].translation,
                orbs[j],
                cells[k],
            );
        if i < enemies.len() {
            assert(cells[k].contains(enemies[i].entity) && orbs[j].entity == h);
        } else {
            assert(orbs[j].entity == h && strikes(enemy.translation, orbs[j], cell));
        }
    }
    assert forall|h: u64| expected.contains(h) implies orbs_hit(cells, longer, orbs).contains(h) by {
        if orbs_hit(cells, enemies, orbs).contains(h) {
            let (k, i, j) = choose|k: int, i: int, j: int|
                0 <= k < cells.len() && 0 <= i < enemies.len() && 0 <= j < orbs.len()
                    && #[trigger] cells[k].contains((#[trigger] enemies[i]).entity)
                    && (#[trigger] orbs[j]).entity == h && strikes(
                    enemies[i].translation,
                    orbs[j],
                    cells[k],
                );
            assert(longer[i] == enemies[i]);
            assert(cells[k].contains(longer[i].entity) && orbs[j].entity == h);
        } else {
            let j = choose|j: int|
                0 <= j < orbs.len() && (#[trigger] orbs[j]).entity == h && strikes(
                    enemy.translation,
                    orbs[j],
                    cell,
                );
            let i = enemies.len() as int;
            assert(longer[i] == enemy);
            assert(cells[0].contains(longer[i].entity) && orbs[j].entity == h);
        }
    }
    assert(orbs_hit(cells, longer, orbs) =~= expected);
}

/// One more cell adds the projectiles that strike within it.
proof fn lemma_orbs_hit_push_cell(
    cells: Seq<Set<u64>>,
    cell: Set<u64>,
    enemies: Seq<Enemy>,
    orbs: Seq<Orb>,
)
    ensures
        orbs_hit(cells.push(cell), enemies, orbs) == orbs_hit(cells, enemies, orbs).union(
            orbs_hit(seq![cell], enemies, orbs),
        ),
{
    let more = cells.push(cell);
    let one = seq![cell];
    let expected = orbs_hit(cells, enemies, orbs).union(orbs_hit(one, enemies, orbs));
    assert forall|h: u64| orbs_hit(more, enemies, orbs).contains(h) implies expected.contains(h) by {
        let (k, i, j) = choose|k: int, i: int, j: int|
            0 <= k < more.len() && 0 <= i < enemies.len() && 0 <= j < orbs.len()
                && #[trigger] more[k].contains((#[trigger] enemies[i]).entity)
                && (#[trigger] orbs[j]).entity == h && strikes(
                enemies[i].translation,
                orbs[j],
                more[k],
            );
        if k < cells.len() {
            assert(cells[k].contains(enemies[i].entity) && orbs[j].entity == h);
        } else {
            assert(one[0].contains(enemies[i].entity) && orbs[j].entity == h);
        }
    }
    assert forall|h: u64| expected.contains(h) implies orbs_hit(more, enemies, orbs).contains(h) by {
        if orbs_hit(cells, enemies, orbs).contains(h) {
            let (k, i, j) = choose|k: int, i: int, j: int|
                0 <= k < cells.len() && 0 <= i < enemies.len() && 0 <= j < orbs.len()
                    && #[trigger] cells[k].contains((#[trigger] enemies[i]).entity)
                    && (#[trigger] orbs[j]).entity == h && strikes(
                    enemies[i].translation,
                    orbs[j],
                    cells[k],
                );
            assert(more[k].contains(enemies[i].entity) && orbs[j].entity == h);
        } else {
            let (k, i, j) = choose|k: int, i: int, j: int|
                0 <= k < one.len() && 0 <= i < enemies.len() && 0 <= j < orbs.len()
                    && #[trigger] one[k].contains((#[trigger] enemies[i]).entity)
                    && (#[trigger] orbs[j]).entity == h && strikes(
                    enemies[i].translation,
                    orbs[j],
                    one[k],
                );
            assert(more[cells.len() as int].contains(enemies[i].entity) && orbs[j].entity == h);
        }
    }
    assert(orbs_hit(more, enemies, orbs) =~= expected);
}

/// Resolves the contacts within one cell: every enemy of the cell is
/// tested against every projectile of the cell.
fn strike_cell(
    enemies: &mut Vec<Enemy>,
    orbs: &Vec<Orb>,
    cell: Option<&HashSet<u64>>,
    hit: &mut HashSet<u64>,
)
    ensures
        final(enemies)@.len() == old(enemies)@.len(),
        forall|i: int|
            0 <= i < old(enemies)@.len() ==> #[trigger] final(enemies)@[i] == struck(
                old(enemies)@[i],
                damage_in_cell(cell_handles(cell), old(enemies)@[i], orbs@),
            ),
        final(hit)@ == old(hit)@.union(orbs_hit(seq![cell_handles(cell)], old(enemies)@, orbs@)),
{
    let ghost present = cell_handles(cell);
    let ghost before = enemies@;
    let mut i: usize = 0;
    proof {
        assert(orbs_hit(seq![present], before.take(0), orbs@) =~= Set::<u64>::empty());
        assert(hit@.union(Set::<u64>::empty()) =~= hit@);
    }
    while i < enemies.len()
        invariant
            i <= before.len(),
            before == old(enemies)@,
            present == cell_handles(cell),
            enemies@.len() == before.len(),
            forall|w: int|
                0 <= w < i ==> #[trigger] enemies@[w] == struck(
                    before[w],
                    damage_in_cell(present, before[w], orbs@),
                ),
            forall|w: int| i <= w < before.len() ==> #[trigger] enemies@[w] == before[w],
            hit@ == old(hit)@.union(orbs_hit(seq![present], before.take(i as int), orbs@)),
        decreases before.len() - i,
    {
        let enemy = enemies[i];
        let here = match cell {
            Some(set) => set.contains(&enemy.entity),
            None => true,
        };
        proof {
            assert(before.take(i + 1) =~= before.take(i as int).push(enemy));
            lemma_orbs_hit_push_enemy(present, before.take(i as int), enemy, orbs@);
        }
        if here {
            let left = strike_row(enemy.translation, enemy.health.hp, orbs, cell, hit);
            enemies.set(
                i,
                Enemy {
                    entity: enemy.entity,
                    translation: enemy.translation,
                    health: HealthPoints { hp: left, max_hp: enemy.health.max_hp },
                },
            );
            assert(hit@ =~= old(hit)@.union(orbs_hit(seq![present], before.take(i + 1), orbs@)));
        } else {
            assert(hit@ =~= old(hit)@.union(orbs_hit(seq![present], before.take(i + 1), orbs@)));
        }
        i += 1;
    }
    assert(before.take(i as int) =~= before);
}

/// Resolves contacts by testing every enemy against every projectile.
///
/// A projectile that touches an enemy is marked for removal, and its
/// payload, if it has one, is taken from the enemy's hit points, which
/// never fall below zero. Then every enemy without hit points is marked.
///
/// The rows are resolved one by one, each for itself, and the marks go
/// by handle. The arena's rows have unique handles (`unique_handles`);
/// where rows share a handle, that handle is marked if any row that
/// bears it is hit or has fallen.
pub fn take_damage_n2(enemies: &mut Vec<Enemy>, orbs: &Vec<Orb>) -> (despawn: Despawn)
    ensures
        final(enemies)@.len() == old(enemies)@.len(),
        forall|i: int|
            0 <= i < old(enemies)@.len() ==> #[trigger] final(enemies)@[i] == struck(
                old(enemies)@[i],
                damage_among(old(enemies)@[i].translation, orbs@, Set::full()),
            ),
        despawn.orbs@ == orbs_hit(everywhere(), old(enemies)@, orbs@),
        despawn.enemies@ == fallen(final(enemies)@),
{
    let mut orbs_to_despawn: HashSet<u64> = HashSet::new();
    strike_cell(enemies, orbs, None, &mut orbs_to_despawn);
    assert(orbs_to_despawn@ =~= orbs_hit(everywhere(), old(enemies)@, orbs@));
    let enemies_to_despawn = mark_fallen(enemies);
    Despawn { enemies: enemies_to_despawn, orbs: orbs_to_despawn }
}

/// No projectile strikes within a cell that holds nothing.
proof fn lemma_orbs_hit_empty_cell(enemies: Seq<Enemy>, orbs: Seq<Orb>)
    ensures
        orbs_hit(seq![Set::<u64>::empty()], enemies, orbs) == Set::<u64>::empty(),
{
    let one = seq![Set::<u64>::empty()];
    assert forall|h: u64| !orbs_hit(one, enemies, orbs).contains(h) by {
        if orbs_hit(one, enemies, orbs).contains(h) {
            let (k, i, j) = choose|k: int, i: int, j: int|
                0 <= k < one.len() && 0 <= i < enemies.len() && 0 <= j < orbs.len()
                    && #[trigger] one[k].contains((#[trigger] enemies[i]).entity)
                    && (#[trigger] orbs[j]).entity == h && strikes(
                    enemies[i].translation,
                    orbs[j],
                    one[k],
                );
        }
    }
    assert(orbs_hit(one, enemies, orbs) =~= Set::<u64>::empty());
}

/// Resolves contacts with the help of the spatial index: an enemy is
/// tested against a projectile only where a leaf holds the handles of
/// both.
///
/// Within each leaf this does what [`take_damage_n2`] does everywhere: a
/// projectile that touches an enemy is marked for removal, and its
/// payload, if it has one, is taken from the enemy's hit points, which
/// never fall below zero. When all leaves are done, every enemy without
/// hit points is marked.
///
/// The index knows objects by their handles alone. Rows that share a
/// handle are each taken to be in every leaf that holds the handle.
pub fn take_damage(quad_tree: &QuadTree, enemies: &mut Vec<Enemy>, orbs: &Vec<Orb>) -> (despawn:
    Despawn)
    ensures
        final(enemies)@.len() == old(enemies)@.len(),
        forall|i: int|
            0 <= i < old(enemies)@.len() ==> #[trigger] final(enemies)@[i] == struck(
                old(enemies)@[i],
                damage_taken(cells_of(quad_tree@), old(enemies)@[i], orbs@),
            ),
        despawn.orbs@ == orbs_hit(cells_of(quad_tree@), old(enemies)@, orbs@),
        despawn.enemies@ == fallen(final(enemies)@),
{
    let mut orbs_to_despawn: HashSet<u64> = HashSet::new();
    let leaf_nodes = quad_tree.get_leaf_nodes();
    let ghost cells = cells_of(quad_tree@);
    let ghost before = enemies@;
    let mut k: usize = 0;
    proof {
        assert(orbs_to_despawn@ =~= orbs_hit(cells.take(0), before, orbs@));
    }
    while k < leaf_nodes.len()
        invariant
            k <= leaf_nodes@.len(),
            before == old(enemies)@,
            cells == cells_of(quad_tree@),
            cells.len() == leaf_nodes@.len(),
            forall|n: int| 0 <= n < cells.len() ==> #[trigger] cells[n] == leaf_nodes@[n].handles(),
            enemies@.len() == before.len(),
            forall|w: int|
                0 <= w < before.len() ==> #[trigger] enemies@[w] == struck(
                    before[w],
                    damage_taken(cells.take(k as int), before[w], orbs@),
                ),
            orbs_to_despawn@ == orbs_hit(cells.take(k as int), before, orbs@),
        decreases leaf_nodes@.len() - k,
    {
        let node = leaf_nodes[k];
        let ghost cell = cells[k as int];
        let ghost current = enemies@;
        proof {
            assert(cells.take(k + 1) =~= cells.take(k as int).push(cell));
            assert(cells.take(k + 1).drop_last() =~= cells.take(k as int));
            lemma_orbs_hit_push_cell(cells.take(k as int), cell, before, orbs@);
            assert(same_bodies(current, before));
            lemma_orbs_hit_same_bodies(seq![cell], current, before, orbs@);
        }
        match &node.objects {
            Some(obj_refs) => {
                strike_cell(enemies, orbs, Some(obj_refs), &mut orbs_to_despawn);
            },
            None => {
                proof {
                    lemma_orbs_hit_empty_cell(before, orbs@);
                }
            },
        }
        proof {
            assert(orbs_to_despawn@ =~= orbs_hit(cells.take(k + 1), before, orbs@));
            assert forall|w: int| 0 <= w < before.len() implies #[trigger] enemies@[w] == struck(
                before[w],
                damage_taken(cells.take(k + 1), before[w], orbs@),
            ) by {
                assert(current[w] == struck(
                    before[w],
                    damage_taken(cells.take(k as int), before[w], orbs@),
                ));
                assert(damage_in_cell(cell, current[w], orbs@) == damage_in_cell(
                    cell,
                    before[w],
                    orbs@,
                ));
            }
        }
        k += 1;
    }
    assert(cells.take(k as int) =~= cells);
    let enemies_to_despawn = mark_fallen(enemies);
    Despawn { enemies: enemies_to_despawn, orbs: orbs_to_despawn }
}

/// Whether every leaf is at least as wide and as deep as the footprint
/// of an enemy.
pub open spec fn roomy(leaves: Seq<Leaf>) -> bool {
    forall|k: int|
        0 <= k < leaves.len() ==> (#[trigger] leaves[k]).bounds[1].x - leaves[k].bounds[0].x >= 2
            * FOOTPRINT_HALF && leaves[k].bounds[1].y - leaves[k].bounds[0].y >= 2 * FOOTPRINT_HALF
}

/// Whether the leaves hold what indexing these enemies and projectiles
/// into an empty tree leaves in them.
pub open spec fn indexed(leaves: Seq<Leaf>, enemies: Seq<Enemy>, orbs: Seq<Orb>) -> bool {
    forall|k: int|
        0 <= k < leaves.len() ==> (#[trigger] leaves[k]).objects == enemies_within(
            leaves[k].bounds,
            enemies,
        ).union(orbs_within(leaves[k].bounds, orbs))
}

/// Whether no projectile shares its handle with another projectile or
/// with an enemy.
pub open spec fn distinct_handles(enemies: Seq<Enemy>, orbs: Seq<Orb>) -> bool {
    &&& forall|a: int, b: int|
        0 <= a < orbs.len() && 0 <= b < orbs.len() && a != b ==> (#[trigger] orbs[a]).entity != (
        #[trigger] orbs[b]).entity
    &&& forall|i: int, j: int|
        0 <= i < enemies.len() && 0 <= j < orbs.len() ==> (#[trigger] enemies[i]).entity != (
        #[trigger] orbs[j]).entity
}

/// Whether the rows are those of a table keyed by handle: no two of them,
/// enemies or projectiles, share a handle. The arena hands out each
/// handle once, so its rows are of this kind.
pub open spec fn unique_handles(enemies: Seq<Enemy>, orbs: Seq<Orb>) -> bool {
    &&& distinct_handles(enemies, orbs)
    &&& forall|a: int, b: int|
        0 <= a < enemies.len() && 0 <= b < enemies.len() && a != b ==> (#[trigger] enemies[a]).entity
            != (#[trigger] enemies[b]).entity
}

/// Among rows with unique handles a handle is marked as fallen exactly
/// if its own row has no hit points left. Without that, a handle is
/// marked if any row that bears it has none left.
pub proof fn lemma_fallen_by_handle(enemies: Seq<Enemy>, orbs: Seq<Orb>, i: int)
    requires
        unique_handles(enemies, orbs),
        0 <= i < enemies.len(),
    ensures
        fallen(enemies).contains(enemies[i].entity) <==> enemies[i].health.hp == 0,
{
    if fallen(enemies).contains(enemies[i].entity) {
        let w = choose|w: int|
            0 <= w < enemies.len() && (#[trigger] enemies[w]).entity == enemies[i].entity
                && enemies[w].health.hp == 0;
        if w != i {
            assert(enemies[w].entity != enemies[i].entity);
        }
    }
}

/// Among rows with unique handles a projectile is marked exactly if it
/// itself touches an enemy. Without that, a handle is marked if any
/// projectile that bears it touches one.
pub proof fn lemma_hit_by_handle(enemies: Seq<Enemy>, orbs: Seq<Orb>, j: int)
    requires
        unique_handles(enemies, orbs),
        0 <= j < orbs.len(),
    ensures
        orbs_hit(everywhere(), enemies, orbs).contains(orbs[j].entity) <==> exists|i: int|
            0 <= i < enemies.len() && in_contact(
                (#[trigger] enemies[i]).translation,
                orbs[j].translation,
            ),
{
    let all = everywhere();
    let h = orbs[j].entity;
    if orbs_hit(all, enemies, orbs).contains(h) {
        let (k, i, w) = choose|k: int, i: int, w: int|
            0 <= k < all.len() && 0 <= i < enemies.len() && 0 <= w < orbs.len()
                && #[trigger] all[k].contains((#[trigger] enemies[i]).entity)
                && (#[trigger] orbs[w]).entity == h && strikes(
                enemies[i].translation,
                orbs[w],
                all[k],
            );
        if w != j {
            assert(orbs[w].entity != orbs[j].entity);
        }
        assert(in_contact(enemies[i].translation, orbs[j].translation));
    }
    if exists|i: int|
        0 <= i < enemies.len() && in_contact(
            (#[trigger] enemies[i]).translation,
            orbs[j].translation,
        ) {
        let i = choose|i: int|
            0 <= i < enemies.len() && in_contact(
                (#[trigger] enemies[i]).translation,
                orbs[j].translation,
            );
        assert(all[0].contains(enemies[i].entity) && orbs[j].entity == h && strikes(
            enemies[i].translation,
            orbs[j],
            all[0],
        ));
    }
}

/// The leaves of a tree that is spacious for a footprint are roomy. So
/// are those of every tree that `QuadTree::new` builds over a square
/// wider than a footprint with a minimum leaf size of more than two
/// footprints.
pub proof fn lemma_spacious_is_roomy(tree: QuadTree)
    requires
        spacious(tree, 2 * FOOTPRINT_HALF),
    ensures
        roomy(tree@),
{
    lemma_leaves_keep_room(tree, 2 * FOOTPRINT_HALF);
    assert forall|k: int| 0 <= k < tree@.len() implies (#[trigger] tree@[k]).bounds[1].x
        - tree@[k].bounds[0].x >= 2 * FOOTPRINT_HALF && tree@[k].bounds[1].y
        - tree@[k].bounds[0].y >= 2 * FOOTPRINT_HALF by {
        assert(width(tree@[k].bounds) > 2 * FOOTPRINT_HALF);
        assert(depth(tree@[k].bounds) >= 2 * FOOTPRINT_HALF);
    }
}

/// Whether every projectile that touches an enemy flies above the
/// region that the index covers.
pub open spec fn contacts_covered(bounds: [Vec2; 2], enemies: Seq<Enemy>, orbs: Seq<Orb>) -> bool {
    forall|i: int, j: int|
        0 <= i < enemies.len() && 0 <= j < orbs.len() && in_contact(
            (#[trigger] enemies[i]).translation,
            (#[trigger] orbs[j]).translation,
        ) ==> orb_within(bounds, orbs[j])
}

/// In how many cells an enemy and a projectile are tested against each
/// other and touch.
pub open spec fn times_struck(cells: Seq<Set<u64>>, enemy: Enemy, orb: Orb) -> nat
    decreases cells.len(),
{
    if cells.len() == 0 {
        0
    } else {
        times_struck(cells.drop_last(), enemy, orb) + if cells.last().contains(enemy.entity)
            && strikes(enemy.translation, orb, cells.last()) {
            1nat
        } else {
            0nat
        }
    }
}

proof fn lemma_damage_taken_push(cells: Seq<Set<u64>>, enemy: Enemy, orbs: Seq<Orb>, orb: Orb)
    ensures
        damage_taken(cells, enemy, orbs.push(orb)) == damage_taken(cells, enemy, orbs)
            + times_struck(cells, enemy, orb) * payload(orb),
    decreases cells.len(),
{
    if cells.len() == 0 {
        assert(0 * payload(orb) == 0);
    } else {
        lemma_damage_taken_push(cells.drop_last(), enemy, orbs, orb);
        let cell = cells.last();
        let longer = orbs.push(orb);
        assert(longer.drop_last() =~= orbs);
        assert(longer.last() == orb);
        assert(damage_among(enemy.translation, longer, cell) == damage_among(
            enemy.translation,
            orbs,
            cell,
        ) + if strikes(enemy.translation, orb, cell) {
            payload(orb)
        } else {
            0
        });
        let rest = times_struck(cells.drop_last(), enemy, orb);
        assert((rest + 1) * payload(orb) == rest * payload(orb) + payload(orb))
            by (nonlinear_arith);
        assert((rest + 0) * payload(orb) == rest * payload(orb));
    }
}

proof fn lemma_times_struck_never(cells: Seq<Set<u64>>, enemy: Enemy, orb: Orb)
    requires
        forall|k: int|
            0 <= k < cells.len() ==> !((#[trigger] cells[k]).contains(enemy.entity) && strikes(
                enemy.translation,
                orb,
                cells[k],
            )),
    ensures
        times_struck(cells, enemy, orb) == 0,
    decreases cells.len(),
{
    if cells.len() != 0 {
        assert(forall|k: int| 0 <= k < cells.len() - 1 ==> cells.drop_last()[k] == cells[k]);
        lemma_times_struck_never(cells.drop_last(), enemy, orb);
        assert(cells.last() == cells[cells.len() - 1]);
    }
}

proof fn lemma_times_struck_once(cells: Seq<Set<u64>>, enemy: Enemy, orb: Orb, at: int)
    requires
        0 <= at < cells.len(),
        cells[at].contains(enemy.entity) && strikes(enemy.translation, orb, cells[at]),
        forall|k: int|
            0 <= k < cells.len() && k != at ==> !(#[trigger] cells[k]).contains(orb.entity),
    ensures
        times_struck(cells, enemy, orb) == 1,
    decreases cells.len(),
{
    let shorter = cells.drop_last();
    assert(forall|k: int| 0 <= k < cells.len() - 1 ==> shorter[k] == cells[k]);
    assert(cells.last() == cells[cells.len() - 1]);
    if at == cells.len() - 1 {
        lemma_times_struck_never(shorter, enemy, orb);
    } else {
        lemma_times_struck_once(shorter, enemy, orb, at);
    }
}

/// Two points closer than the contact radius are closer than half a
/// footprint along each axis of the ground.
proof fn lemma_contact_is_near(p: Vec3, q: Vec3)
    requires
        closer_than(p, q, CONTACT_RADIUS as int),
    ensures
        -FOOTPRINT_HALF < p.x - q.x < FOOTPRINT_HALF,
        -FOOTPRINT_HALF < p.z - q.z < FOOTPRINT_HALF,
{
    let dx = p.x - q.x;
    let dy = p.y - q.y;
    let dz = p.z - q.z;
    assert(dist_sq(p, q) == dx * dx + dy * dy + dz * dz);
    assert(dx * dx >= 0 && dy * dy >= 0 && dz * dz >= 0) by (nonlinear_arith);
    assert(dx * dx < 32768 * 32768);
    assert(dz * dz < 32768 * 32768);
    assert(-32768 < dx < 32768) by (nonlinear_arith)
        requires
            dx * dx < 32768 * 32768,
    ;
    assert(-32768 < dz < 32768) by (nonlinear_arith)
        requires
            dz * dz < 32768 * 32768,
    ;
}

/// A leaf that is at least as large as a footprint and lies below a
/// projectile holds a corner of the footprint of every enemy that the
/// projectile touches.
proof fn lemma_contact_shares_leaf(bounds: [Vec2; 2], enemy: Enemy, orb: Orb)
    requires
        in_contact(enemy.translation, orb.translation),
        orb_within(bounds, orb),
        bounds[1].x - bounds[0].x >= 2 * FOOTPRINT_HALF,
        bounds[1].y - bounds[0].y >= 2 * FOOTPRINT_HALF,
    ensures
        enemy_within(bounds, enemy),
{
    let e = enemy.translation->0;
    let o = orb.translation->0;
    lemma_contact_is_near(e, o);
    let cx = if e.x - FOOTPRINT_HALF > bounds[0].x {
        e.x - FOOTPRINT_HALF
    } else {
        e.x + FOOTPRINT_HALF
    };
    let cz = if e.z - FOOTPRINT_HALF > bounds[0].y {
        e.z - FOOTPRINT_HALF
    } else {
        e.z + FOOTPRINT_HALF
    };
    assert(region_contains(bounds, cx, cz));
}

/// Where a projectile touches an enemy, the index has exactly one leaf
/// that holds the projectile, and that leaf holds the enemy too.
proof fn lemma_contact_cell(
    tree: QuadTree,
    enemies: Seq<Enemy>,
    orbs: Seq<Orb>,
    i: int,
    j: int,
) -> (at: int)
    requires
        tree.well_formed(),
        roomy(tree@),
        indexed(tree@, enemies, orbs),
        distinct_handles(enemies, orbs),
        contacts_covered(tree.bounds, enemies, orbs),
        0 <= i < enemies.len(),
        0 <= j < orbs.len(),
        in_contact(enemies[i].translation, orbs[j].translation),
    ensures
        0 <= at < tree@.len(),
        cells_of(tree@)[at].contains(enemies[i].entity),
        cells_of(tree@)[at].contains(orbs[j].entity),
        forall|k: int|
            0 <= k < tree@.len() && k != at ==> !(#[trigger] cells_of(tree@)[k]).contains(
                orbs[j].entity,
            ),
{
    let leaves = tree@;
    let o = orbs[j].translation->0;
    assert(orb_within(tree.bounds, orbs[j]));
    let ground = Vec2 { x: o.x, y: o.z };
    let at = lemma_exactly_one_leaf(tree, ground);
    assert forall|k: int| 0 <= k < leaves.len() implies (#[trigger] leaves[k]).bounds
        == tree.leaves()[k].bounds by {}
    assert(orb_within(leaves[at].bounds, orbs[j]));
    lemma_contact_shares_leaf(leaves[at].bounds, enemies[i], orbs[j]);
    assert(enemies_within(leaves[at].bounds, enemies).contains(enemies[i].entity));
    assert(orbs_within(leaves[at].bounds, orbs).contains(orbs[j].entity));
    assert forall|k: int| 0 <= k < leaves.len() && k != at implies !(#[trigger] cells_of(
        leaves,
    )[k]).contains(orbs[j].entity) by {
        let h = orbs[j].entity;
        if enemies_within(leaves[k].bounds, enemies).contains(h) {
            let w = choose|w: int|
                0 <= w < enemies.len() && (#[trigger] enemies[w]).entity == h && enemy_within(
                    leaves[k].bounds,
                    enemies[w],
                );
            assert(enemies[w].entity != orbs[j].entity);
        }
        if orbs_within(leaves[k].bounds, orbs).contains(h) {
            let w = choose|w: int|
                0 <= w < orbs.len() && (#[trigger] orbs[w]).entity == h && orb_within(
                    leaves[k].bounds,
                    orbs[w],
                );
            if w != j {
                assert(orbs[w].entity != orbs[j].entity);
            }
            assert(tree.leaves()[k].spec_contains(ground));
        }
    }
    at
}

proof fn lemma_damage_agrees(
    tree: QuadTree,
    enemies: Seq<Enemy>,
    orbs: Seq<Orb>,
    i: int,
    n: int,
)
    requires
        tree.well_formed(),
        roomy(tree@),
        indexed(tree@, enemies, orbs),
        distinct_handles(enemies, orbs),
        contacts_covered(tree.bounds, enemies, orbs),
        0 <= i < enemies.len(),
        0 <= n <= orbs.len(),
    ensures
        damage_taken(cells_of(tree@), enemies[i], orbs.take(n)) == damage_among(
            enemies[i].translation,
            orbs.take(n),
            Set::full(),
        ),
    decreases n,
{
    let cells = cells_of(tree@);
    let enemy = enemies[i];
    if n == 0 {
        lemma_damage_taken_none(cells, enemy);
        assert(orbs.take(0) =~= Seq::<Orb>::empty());
    } else {
        let orb = orbs[n - 1];
        lemma_damage_agrees(tree, enemies, orbs, i, n - 1);
        assert(orbs.take(n) =~= orbs.take(n - 1).push(orb));
        assert(orbs.take(n).drop_last() =~= orbs.take(n - 1));
        lemma_damage_taken_push(cells, enemy, orbs.take(n - 1), orb);
        if in_contact(enemy.translation, orb.translation) {
            let at = lemma_contact_cell(tree, enemies, orbs, i, n - 1);
            lemma_times_struck_once(cells, enemy, orb, at);
            assert(1 * payload(orb) == payload(orb));
        } else {
            lemma_times_struck_never(cells, enemy, orb);
            assert(0 * payload(orb) == 0);
        }
    }
}

proof fn lemma_damage_taken_none(cells: Seq<Set<u64>>, enemy: Enemy)
    ensures
        damage_taken(cells, enemy, Seq::<Orb>::empty()) == 0,
    decreases cells.len(),
{
    if cells.len() != 0 {
        lemma_damage_taken_none(cells.drop_last(), enemy);
    }
}

/// The two resolvers agree on rows with unique handles, and on more: the
/// handles of the enemies need not be unique for it. Let a well-formed
/// index whose leaves are at least as large as a footprint hold what
/// indexing the enemies and the projectiles leaves in it, let no
/// projectile share its handle, and let every projectile that touches an
/// enemy fly above the region of the index. Then each enemy takes the
/// same damage from [`take_damage`] as from [`take_damage_n2`], so that
/// both leave every enemy with the same hit points and mark the same
/// enemies, and both mark the same projectiles.
///
/// None of the three conditions can go. The index knows a projectile by
/// its handle, so two projectiles with one handle are each tested in the
/// leaves of both; a leaf smaller than a footprint may hold a projectile
/// and no corner of the enemy that it touches; and a projectile outside
/// the region is not indexed at all.
pub proof fn lemma_resolvers_agree(tree: QuadTree, enemies: Seq<Enemy>, orbs: Seq<Orb>)
    requires
        tree.well_formed(),
        roomy(tree@),
        indexed(tree@, enemies, orbs),
        distinct_handles(enemies, orbs),
        contacts_covered(tree.bounds, enemies, orbs),
    ensures
        forall|i: int|
            0 <= i < enemies.len() ==> damage_taken(cells_of(tree@), #[trigger] enemies[i], orbs)
                == damage_among(enemies[i].translation, orbs, Set::full()),
        forall|i: int|
            0 <= i < enemies.len() ==> struck(
                #[trigger] enemies[i],
                damage_taken(cells_of(tree@), enemies[i], orbs),
            ) == struck(enemies[i], damage_among(enemies[i].translation, orbs, Set::full())),
        orbs_hit(cells_of(tree@), enemies, orbs) == orbs_hit(everywhere(), enemies, orbs),
{
    let cells = cells_of(tree@);
    assert forall|i: int| 0 <= i < enemies.len() implies damage_taken(
        cells,
        #[trigger] enemies[i],
        orbs,
    ) == damage_among(enemies[i].translation, orbs, Set::full()) by {
        lemma_damage_agrees(tree, enemies, orbs, i, orbs.len() as int);
        assert(orbs.take(orbs.len() as int) =~= orbs);
    }
    let all = everywhere();
    assert forall|h: u64| orbs_hit(cells, enemies, orbs).contains(h) implies orbs_hit(
        all,
        enemies,
        orbs,
    ).contains(h) by {
        let (k, i, j) = choose|k: int, i: int, j: int|
            0 <= k < cells.len() && 0 <= i < enemies.len() && 0 <= j < orbs.len()
                && #[trigger] cells[k].contains((#[trigger] enemies[i]).entity)
                && (#[trigger] orbs[j]).entity == h && strikes(
                enemies[i].translation,
                orbs[j],
                cells[k],
            );
        assert(all[0].contains(enemies[i].entity) && orbs[j].entity == h && strikes(
            enemies[i].translation,
            orbs[j],
            all[0],
        ));
    }
    assert forall|h: u64| orbs_hit(all, enemies, orbs).contains(h) implies orbs_hit(
        cells,
        enemies,
        orbs,
    ).contains(h) by {
        let (k, i, j) = choose|k: int, i: int, j: int|
            0 <= k < all.len() && 0 <= i < enemies.len() && 0 <= j < orbs.len()
                && #[trigger] all[k].contains((#[trigger] enemies[i]).entity)
                && (#[trigger] orbs[j]).entity == h && strikes(
                enemies[i].translation,
                orbs[j],
                all[k],
            );
        let at = lemma_contact_cell(tree, enemies, orbs, i, j);
        assert(cells[at].contains(enemies[i].entity) && orbs[j].entity == h && strikes(
            enemies[i].translation,
            orbs[j],
            cells[at],
        ));
    }
    assert(orbs_hit(cells, enemies, orbs) =~= orbs_hit(all, enemies, orbs));
}

/// One projectile that touches an enemy takes exactly its payload from
/// the enemy's hit points, or all of them if they are fewer; and the
/// enemy is marked for removal exactly if none are left.
pub proof fn lemma_single_hit(enemy: Enemy, orb: Orb)
    requires
        in_contact(enemy.translation, orb.translation),
    ensures
        damage_among(enemy.translation, seq![orb], Set::full()) == payload(orb),
        struck(enemy, payload(orb)).health.hp == if enemy.health.hp >= payload(orb) {
            enemy.health.hp - payload(orb)
        } else {
            0
        },
        fallen(seq![struck(enemy, payload(orb))]).contains(enemy.entity) <==> enemy.health.hp
            <= payload(orb),
{
    let one = seq![orb];
    assert(one.drop_last() =~= Seq::<Orb>::empty());
    assert(one.last() == orb);
    assert(damage_among(enemy.translation, one.drop_last(), Set::full()) == 0);
    let after = seq![struck(enemy, payload(orb))];
    assert(after[0] == struck(enemy, payload(orb)));
    if enemy.health.hp <= payload(orb) {
        assert(after[0].entity == enemy.entity && after[0].health.hp == 0);
    }
}

/// The cells that indexing the enemies and the projectiles into an empty
/// tree with these leaves gives.
pub open spec fn index_cells(leaves: Seq<Leaf>, enemies: Seq<Enemy>, orbs: Seq<Orb>) -> Seq<
    Set<u64>,
> {
    Seq::new(
        leaves.len(),
        |k: int|
            enemies_within(leaves[k].bounds, enemies).union(orbs_within(leaves[k].bounds, orbs)),
    )
}

/// Runs the three phases of one tick in their order: the index is filled
/// from the enemies and the projectiles, contacts are resolved with its
/// help, and the index is emptied again. No phase sees the work of
/// another half done, and nothing of one tick is left in the index for
/// the next.
///
/// Where the leaves are at least as large as a footprint, no projectile
/// shares its handle, and every projectile that touches an enemy flies
/// above the region of the index, the outcome is that of
/// [`take_damage_n2`].
pub fn collision_tick(quad_tree: &mut QuadTree, enemies: &mut Vec<Enemy>, orbs: &Vec<Orb>) -> (despawn:
    Despawn)
    requires
        old(quad_tree).well_formed(),
        old(quad_tree).vacant(),
    ensures
        final(quad_tree).well_formed(),
        final(quad_tree).vacant(),
        final(quad_tree).bounds == old(quad_tree).bounds,
        final(quad_tree).min_size == old(quad_tree).min_size,
        final(quad_tree)@ == old(quad_tree)@,
        final(enemies)@.len() == old(enemies)@.len(),
        forall|i: int|
            0 <= i < old(enemies)@.len() ==> #[trigger] final(enemies)@[i] == struck(
                old(enemies)@[i],
                damage_taken(
                    index_cells(old(quad_tree)@, old(enemies)@, orbs@),
                    old(enemies)@[i],
                    orbs@,
                ),
            ),
        despawn.orbs@ == orbs_hit(
            index_cells(old(quad_tree)@, old(enemies)@, orbs@),
            old(enemies)@,
            orbs@,
        ),
        despawn.enemies@ == fallen(final(enemies)@),
        roomy(old(quad_tree)@) && distinct_handles(old(enemies)@, orbs@) && contacts_covered(
            old(quad_tree).bounds,
            old(enemies)@,
            orbs@,
        ) ==> despawn.orbs@ == orbs_hit(everywhere(), old(enemies)@, orbs@) && forall|i: int|
            0 <= i < old(enemies)@.len() ==> #[trigger] final(enemies)@[i] == struck(
                old(enemies)@[i],
                damage_among(old(enemies)@[i].translation, orbs@, Set::full()),
            ),
{
    let ghost empty = quad_tree@;
    proof {
        lemma_vacant_view(*quad_tree);
    }
    index_enemies(quad_tree, enemies);
    let ghost half = quad_tree@;
    index_orbs(quad_tree, orbs);
    let ghost full = quad_tree@;
    let ghost indexed_tree = *quad_tree;
    let ghost before = enemies@;
    proof {
        assert forall|k: int| 0 <= k < empty.len() implies (#[trigger] full[k]).bounds
            == empty[k].bounds && full[k].objects == enemies_within(
            empty[k].bounds,
            before,
        ).union(orbs_within(empty[k].bounds, orbs@)) by {
            assert(half[k].bounds == empty[k].bounds);
            assert(half[k].objects =~= enemies_within(empty[k].bounds, before));
        }
        assert(cells_of(full) =~= index_cells(empty, before, orbs@));
        assert(roomy(empty) ==> roomy(full)) by {
            if roomy(empty) {
                assert forall|k: int| 0 <= k < full.len() implies (#[trigger] full[k]).bounds[1].x
                    - full[k].bounds[0].x >= 2 * FOOTPRINT_HALF && full[k].bounds[1].y
                    - full[k].bounds[0].y >= 2 * FOOTPRINT_HALF by {
                    assert(full[k].bounds == empty[k].bounds);
                }
            }
        }
        assert(indexed(full, before, orbs@));
        if roomy(empty) && distinct_handles(before, orbs@) && contacts_covered(
            quad_tree.bounds,
            before,
            orbs@,
        ) {
            lemma_resolvers_agree(indexed_tree, before, orbs@);
        }
    }
    let despawn = take_damage(quad_tree, enemies, orbs);
    quad_tree.clear_objects();
    proof {
        assert forall|k: int| 0 <= k < empty.len() implies #[trigger] quad_tree@[k] == empty[k] by {
            assert(quad_tree@[k] == full[k].emptied());
            assert(full[k].bounds == empty[k].bounds);
            assert(empty[k].objects == Set::<u64>::empty());
        }
        assert(quad_tree@ =~= empty);
    }
    despawn
}

} // verus!
