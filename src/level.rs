use crate::codec::{encode_scene, valid_scene, EncodeError};
use crate::component::{
    kind_slot, reconstruct, reconstruct_spec, Component, ComponentKind, PortableValue, Registry,
};
use crate::save::{request_step, started, SaveAction, SaveCoordinator};
use crate::snapshot::{scene_from_entities, snapshot, Scene};
use crate::state::{next_state, step, GameEvent, GameState};
use crate::world::{empty_table, live_in, reusable, EntityId, SlotView, World, MAX_SLOTS};
use vstd::prelude::*;

verus! {

/// Half the side of an enemy's square collision box.
pub const ENEMY_HALF_LENGTH: i64 = 15;

/// The component table of an entity loaded from `comps`: each pair of a
/// registered kind whose value has that kind's shape is rebuilt, a later
/// pair of the same kind replacing an earlier one; other pairs are skipped.
pub open spec fn loaded_table(
    reg: Seq<ComponentKind>,
    comps: Seq<(ComponentKind, PortableValue)>,
) -> Seq<Option<Component>>
    decreases comps.len(),
{
    if comps.len() == 0 {
        empty_table()
    } else {
        let prev = loaded_table(reg, comps.drop_last());
        let (k, v) = comps.last();
        if reg.contains(k) && reconstruct_spec(k, v) is Some {
            prev.update(kind_slot(k) as int, reconstruct_spec(k, v))
        } else {
            prev
        }
    }
}

/// Whether the slot holds a loaded enemy that still lacks its collision box.
pub open spec fn needs_shape(s: SlotView) -> bool {
    &&& s.alive
    &&& s.components[kind_slot(ComponentKind::Enemy) as int] is Some
    &&& s.components[kind_slot(ComponentKind::CollisionShape) as int] is None
}

pub open spec fn enemy_shape() -> Component {
    Component::CollisionShape { half_width: ENEMY_HALF_LENGTH, half_height: ENEMY_HALF_LENGTH }
}

/// The slot after the post-load pass.
pub open spec fn materialized(s: SlotView) -> SlotView {
    if needs_shape(s) {
        SlotView {
            components: s.components.update(
                kind_slot(ComponentKind::CollisionShape) as int,
                Some(enemy_shape()),
            ).update(kind_slot(ComponentKind::LevelEntity) as int, Some(Component::LevelEntity)),
            ..s
        }
    } else {
        s
    }
}

/// Whether the slot holds a live entity owned by the level.
pub open spec fn level_owned(s: SlotView) -> bool {
    s.alive && s.components[kind_slot(ComponentKind::LevelEntity) as int] is Some
}

/// The slot after the level is torn down.
pub open spec fn torn_down(s: SlotView) -> SlotView {
    if level_owned(s) {
        SlotView { generation: s.generation, alive: false, components: empty_table() }
    } else {
        s
    }
}

/// The handles of the live entities among the first `n` slots that carry
/// kind `k`, in slot order.
pub open spec fn ids_with(slots: Seq<SlotView>, k: ComponentKind, n: nat) -> Seq<EntityId>
    decreases n,
{
    if n == 0 {
        Seq::empty()
    } else {
        let prev = ids_with(slots, k, (n - 1) as nat);
        let s = slots[n - 1];
        if s.alive && s.components[kind_slot(k) as int] is Some {
            prev.push(EntityId { index: (n - 1) as u32, generation: s.generation })
        } else {
            prev
        }
    }
}

/// The handles of the live entities that carry a component of kind `k`, in
/// slot order.
pub fn entities_with(world: &World, k: ComponentKind) -> (r: Vec<EntityId>)
    requires
        world.wf(),
    ensures
        r@ == ids_with(world.slots_view(), k, world.slots_view().len()),
{
    let mut out: Vec<EntityId> = Vec::new();
    let n = world.slot_count();
    let mut i: usize = 0;
    while i < n
        invariant
            world.wf(),
            n == world.slots_view().len(),
            i <= n,
            out@ == ids_with(world.slots_view(), k, i as nat),
        decreases n - i,
    {
        match world.id_at(i) {
            Some(id) => {
                assert(id.index == i);
                if world.has(id, k) {
                    out.push(id);
                }
            },
            None => {},
        }
        i += 1;
    }
    out
}

/// Spawns one entity per record of `scene`, in order, and gives it the
/// components that the registry rebuilds from the record. Returns the new
/// handles. Every other slot is left as it was.
pub fn spawn_scene(world: &mut World, registry: &Registry, scene: &Scene) -> (r: Vec<EntityId>)
    requires
        old(world).wf(),
        old(world).slots_view().len() + scene@.len() < MAX_SLOTS,
    ensures
        final(world).wf(),
        final(world).camera_view() == old(world).camera_view(),
        r@.len() == scene@.len(),
        forall|a: int|
            0 <= a < r@.len() ==> final(world).live(#[trigger] r@[a])
                && final(world).slots_view()[r@[a].index as int].components == loaded_table(
                registry@,
                scene@[a].components,
            ),
        forall|a: int, b: int| 0 <= a < b < r@.len() ==> (#[trigger] r@[a]).index != (#[trigger] r@[b]).index,
        forall|a: int|
            0 <= a < r@.len() ==> (#[trigger] r@[a]).index >= old(world).slots_view().len() || reusable(
                old(world).slots_view()[r@[a].index as int],
            ),
        forall|i: int|
            0 <= i < old(world).slots_view().len() && (forall|a: int|
                0 <= a < r@.len() ==> (#[trigger] r@[a]).index != i) ==> #[trigger] final(world).slots_view()[i]
                == old(world).slots_view()[i],
{
    let ghost old_slots = world.slots_view();
    let mut ids: Vec<EntityId> = Vec::new();
    let mut j: usize = 0;
    while j < scene.entities.len()
        invariant
            world.wf(),
            world.camera_view() == old(world).camera_view(),
            old_slots == old(world).slots_view(),
            j <= scene@.len(),
            old_slots.len() <= world.slots_view().len() <= old_slots.len() + j,
            old_slots.len() + scene@.len() < MAX_SLOTS,
            ids@.len() == j,
            forall|a: int|
                0 <= a < j ==> world.live(#[trigger] ids@[a])
                    && world.slots_view()[ids@[a].index as int].components == loaded_table(
                    registry@,
                    scene@[a].components,
                ),
            forall|a: int, b: int|
                0 <= a < b < j ==> (#[trigger] ids@[a]).index != (#[trigger] ids@[b]).index,
            forall|a: int|
                0 <= a < j ==> (#[trigger] ids@[a]).index >= old_slots.len() || reusable(
                    old_slots[ids@[a].index as int],
                ),
            forall|i: int|
                0 <= i < old_slots.len() && (forall|a: int|
                    0 <= a < j ==> (#[trigger] ids@[a]).index != i) ==> #[trigger] world.slots_view()[i]
                    == old_slots[i],
        decreases scene@.len() - j,
    {
        let ghost before = world.slots_view();
        let id = world.spawn();
        proof {
            assert forall|a: int| 0 <= a < j implies (#[trigger] ids@[a]).index != id.index by {
                if ids@[a].index == id.index {
                    if (id.index as int) < before.len() {
                        assert(before[id.index as int].alive);
                    }
                }
            }
        }
        let record = &scene.entities[j];
        assert(record@ == scene@[j as int]);
        let mut m: usize = 0;
        proof {
            assert(record.components@.take(0) =~= Seq::<(ComponentKind, PortableValue)>::empty());
        }
        while m < record.components.len()
            invariant
                world.wf(),
                world.live(id),
                world.camera_view() == old(world).camera_view(),
                m <= record.components@.len(),
                world.slots_view().len() == before.len() || world.slots_view().len() == before.len() + 1,
                (id.index as int) < world.slots_view().len(),
                world.slots_view()[id.index as int].components == loaded_table(
                    registry@,
                    record.components@.take(m as int),
                ),
                forall|i: int|
                    0 <= i < world.slots_view().len() && i != id.index ==> #[trigger] world.slots_view()[i]
                        == if i < before.len() { before[i] } else { world.slots_view()[i] },
                world.slots_view().len() == old_slots.len() + j + 1 || world.slots_view().len() <= old_slots.len() + j,
            decreases record.components@.len() - m,
        {
            let (k, v) = record.components[m];
            let ghost cs = record.components@.take(m + 1);
            assert(cs.drop_last() =~= record.components@.take(m as int));
            assert(cs.last() == (k, v));
            if registry.contains(k) {
                match reconstruct(k, v) {
                    Some(c) => {
                        world.insert(id, c);
                    },
                    None => {},
                }
            }
            m += 1;
        }
        assert(record.components@.take(m as int) =~= record.components@);
        let ghost old_ids = ids@;
        ids.push(id);
        proof {
            assert forall|i: int|
                0 <= i < old_slots.len() && (forall|a: int|
                    0 <= a < j + 1 ==> (#[trigger] ids@[a]).index != i) implies #[trigger] world.slots_view()[i]
                    == old_slots[i] by {
                assert(ids@[j as int] == id);
                assert(i != id.index);
                assert forall|a: int| 0 <= a < j implies (#[trigger] old_ids[a]).index != i by {
                    assert(ids@[a] == old_ids[a]);
                }
                assert(before[i] == old_slots[i]);
            }
            assert forall|a: int| 0 <= a < j + 1 implies world.live(#[trigger] ids@[a])
                && world.slots_view()[ids@[a].index as int].components == loaded_table(
                registry@,
                scene@[a].components,
            ) by {
                if a < j {
                    assert(ids@[a] != id);
                }
            }
        }
        j += 1;
    }
    ids
}

/// The post-load pass: gives every live enemy that lacks a collision box the
/// enemy's box and marks it as owned by the level. Returns whether any enemy
/// needed it.
pub fn materialize_derived(world: &mut World) -> (r: bool)
    requires
        old(world).wf(),
    ensures
        final(world).wf(),
        final(world).camera_view() == old(world).camera_view(),
        final(world).slots_view().len() == old(world).slots_view().len(),
        forall|i: int|
            0 <= i < old(world).slots_view().len() ==> #[trigger] final(world).slots_view()[i]
                == materialized(old(world).slots_view()[i]),
        r == exists|i: int| 0 <= i < old(world).slots_view().len() && needs_shape(
            #[trigger] old(world).slots_view()[i],
        ),
{
    let ghost old_slots = world.slots_view();
    let n = world.slot_count();
    let mut found = false;
    let mut i: usize = 0;
    while i < n
        invariant
            world.wf(),
            world.camera_view() == old(world).camera_view(),
            old_slots == old(world).slots_view(),
            n == old_slots.len(),
            world.slots_view().len() == n,
            i <= n,
            forall|k: int| 0 <= k < i ==> #[trigger] world.slots_view()[k] == materialized(old_slots[k]),
            forall|k: int| i <= k < n ==> #[trigger] world.slots_view()[k] == old_slots[k],
            found == exists|k: int| 0 <= k < i && needs_shape(#[trigger] old_slots[k]),
        decreases n - i,
    {
        let ghost before = world.slots_view();
        match world.id_at(i) {
            Some(id) => {
                assert(id.index == i);
                if world.has(id, ComponentKind::Enemy) && !world.has(id, ComponentKind::CollisionShape) {
                    world.insert(
                        id,
                        Component::CollisionShape {
                            half_width: ENEMY_HALF_LENGTH,
                            half_height: ENEMY_HALF_LENGTH,
                        },
                    );
                    world.insert(id, Component::LevelEntity);
                    found = true;
                    assert(world.slots_view()[i as int] =~= materialized(old_slots[i as int]));
                }
            },
            None => {},
        }
        assert(world.slots_view()[i as int] == materialized(old_slots[i as int]));
        i += 1;
    }
    found
}

/// Despawns every live entity owned by the level and puts the camera back at
/// the origin.
pub fn despawn_level(world: &mut World)
    requires
        old(world).wf(),
    ensures
        final(world).wf(),
        final(world).camera_view() == (0i64, 0i64),
        final(world).slots_view().len() == old(world).slots_view().len(),
        forall|i: int|
            0 <= i < old(world).slots_view().len() ==> #[trigger] final(world).slots_view()[i]
                == torn_down(old(world).slots_view()[i]),
{
    let ghost old_slots = world.slots_view();
    let n = world.slot_count();
    let mut i: usize = 0;
    while i < n
        invariant
            world.wf(),
            old_slots == old(world).slots_view(),
            n == old_slots.len(),
            world.slots_view().len() == n,
            i <= n,
            forall|k: int| 0 <= k < i ==> #[trigger] world.slots_view()[k] == torn_down(old_slots[k]),
            forall|k: int| i <= k < n ==> #[trigger] world.slots_view()[k] == old_slots[k],
        decreases n - i,
    {
        match world.id_at(i) {
            Some(id) => {
                assert(id.index == i);
                if world.has(id, ComponentKind::LevelEntity) {
                    world.despawn(id);
                }
            },
            None => {},
        }
        assert(world.slots_view()[i as int] == torn_down(old_slots[i as int]));
        i += 1;
    }
    world.set_camera((0, 0));
}

/// Runs on entering `PlayerDead`: tears the level down and returns the state
/// that follows, the menu.
pub fn enter_player_dead(world: &mut World) -> (r: GameState)
    requires
        old(world).wf(),
    ensures
        r == next_state(GameState::PlayerDead, GameEvent::DeathHandled),
        r == GameState::Menu,
        final(world).wf(),
        final(world).camera_view() == (0i64, 0i64),
        final(world).slots_view().len() == old(world).slots_view().len(),
        forall|i: int|
            0 <= i < old(world).slots_view().len() ==> #[trigger] final(world).slots_view()[i]
                == torn_down(old(world).slots_view()[i]),
{
    despawn_level(world);
    step(GameState::PlayerDead, GameEvent::DeathHandled)
}

/// The player's collision region met a hostile one: while playing, the
/// player is despawned and the game moves to `PlayerDead`; in any other state
/// nothing happens.
pub fn on_player_hit(world: &mut World, s: GameState, player: EntityId) -> (r: GameState)
    requires
        old(world).wf(),
    ensures
        r == next_state(s, GameEvent::PlayerHit),
        final(world).wf(),
        final(world).camera_view() == old(world).camera_view(),
        final(world).slots_view() == if s == GameState::Playing && old(world).live(player) {
            old(world).slots_view().update(
                player.index as int,
                SlotView { generation: player.generation, alive: false, components: empty_table() },
            )
        } else {
            old(world).slots_view()
        },
{
    if s == GameState::Playing {
        world.despawn(player);
    }
    step(s, GameEvent::PlayerHit)
}

/// Loads a level: spawns the records of `scene` and moves on to the post-load
/// state, without waiting for anything else.
pub fn load_level(world: &mut World, registry: &Registry, scene: &Scene) -> (r: (
    GameState,
    Vec<EntityId>,
))
    requires
        old(world).wf(),
        old(world).slots_view().len() + scene@.len() < MAX_SLOTS,
    ensures
        r.0 == next_state(GameState::LoadLevel, GameEvent::SceneRequested),
        final(world).wf(),
        r.1@.len() == scene@.len(),
        forall|a: int|
            0 <= a < r.1@.len() ==> final(world).live(#[trigger] r.1@[a])
                && final(world).slots_view()[r.1@[a].index as int].components == loaded_table(
                registry@,
                scene@[a].components,
            ),
{
    let ids = spawn_scene(world, registry, scene);
    (step(GameState::LoadLevel, GameEvent::SceneRequested), ids)
}

/// One tick of `PostLoadLevel`: the post-load pass, and `Playing` once it
/// has found an entity to complete; otherwise the state stays.
pub fn post_load_tick(world: &mut World) -> (r: GameState)
    requires
        old(world).wf(),
    ensures
        final(world).wf(),
        forall|i: int|
            0 <= i < old(world).slots_view().len() ==> #[trigger] final(world).slots_view()[i]
                == materialized(old(world).slots_view()[i]),
        final(world).slots_view().len() == old(world).slots_view().len(),
        r == if exists|i: int|
            0 <= i < old(world).slots_view().len() && needs_shape(
                #[trigger] old(world).slots_view()[i],
            ) {
            GameState::Playing
        } else {
            GameState::PostLoadLevel
        },
{
    if materialize_derived(world) {
        step(GameState::PostLoadLevel, GameEvent::DerivedMaterialized)
    } else {
        GameState::PostLoadLevel
    }
}

/// Saves the level: snapshots the live enemies and hands the encoded scene to
/// the coordinator.
pub fn save_level(world: &World, registry: &Registry, saves: &mut SaveCoordinator) -> (r: Result<
    SaveAction,
    EncodeError,
>)
    requires
        world.wf(),
    ensures
        ({
            let scene = snapshot(
                world.slots_view(),
                ids_with(world.slots_view(), ComponentKind::Enemy, world.slots_view().len()),
                registry@,
            );
            match r {
                Ok(a) => valid_scene(scene) && (final(saves)@, started(a)) == request_step(
                    old(saves)@,
                    encode_scene(scene),
                ),
                Err(_) => !valid_scene(scene) && final(saves)@ == old(saves)@,
            }
        }),
{
    let enemies = entities_with(world, ComponentKind::Enemy);
    let scene = scene_from_entities(world, registry, &enemies);
    saves.request_save(&scene)
}

/// Spawns an enemy at `(x, y)`: its marker, position, collision box and the
/// level's ownership mark.
pub fn spawn_enemy(world: &mut World, x: i64, y: i64) -> (r: EntityId)
    requires
        old(world).wf(),
        old(world).slots_view().len() < MAX_SLOTS,
    ensures
        final(world).wf(),
        final(world).live(r),
        final(world).comp(r, ComponentKind::Enemy) == Some(Component::Enemy),
        final(world).comp(r, ComponentKind::Position) == Some(Component::Position { x, y }),
        final(world).comp(r, ComponentKind::CollisionShape) == Some(enemy_shape()),
        final(world).comp(r, ComponentKind::LevelEntity) == Some(Component::LevelEntity),
        final(world).comp(r, ComponentKind::Player) is None,
        final(world).comp(r, ComponentKind::Velocity) is None,
        final(world).comp(r, ComponentKind::FixedOffset) is None,
        forall|i: int|
            0 <= i < old(world).slots_view().len() && i != r.index
                ==> #[trigger] final(world).slots_view()[i] == old(world).slots_view()[i],
{
    let id = world.spawn();
    world.insert(id, Component::Enemy);
    world.insert(id, Component::Position { x, y });
    world.insert(
        id,
        Component::CollisionShape { half_width: ENEMY_HALF_LENGTH, half_height: ENEMY_HALF_LENGTH },
    );
    world.insert(id, Component::LevelEntity);
    id
}

/// Half extents of the player's collision box.
pub const PLAYER_HALF_WIDTH: i64 = 4;

pub const PLAYER_HALF_HEIGHT: i64 = 6;

/// Spawns the player at the start of the rail: its marker, position,
/// collision box and the level's ownership mark.
pub fn spawn_player(world: &mut World) -> (r: EntityId)
    requires
        old(world).wf(),
        old(world).slots_view().len() < MAX_SLOTS,
    ensures
        final(world).wf(),
        final(world).live(r),
        final(world).comp(r, ComponentKind::Player) == Some(Component::Player),
        final(world).comp(r, ComponentKind::Position) == Some(Component::Position { x: 0, y: 0 }),
        final(world).comp(r, ComponentKind::CollisionShape) == Some(
            Component::CollisionShape { half_width: PLAYER_HALF_WIDTH, half_height: PLAYER_HALF_HEIGHT },
        ),
        final(world).comp(r, ComponentKind::LevelEntity) == Some(Component::LevelEntity),
        final(world).comp(r, ComponentKind::Enemy) is None,
        final(world).comp(r, ComponentKind::Velocity) is None,
        final(world).comp(r, ComponentKind::FixedOffset) is None,
        forall|i: int|
            0 <= i < old(world).slots_view().len() && i != r.index
                ==> #[trigger] final(world).slots_view()[i] == old(world).slots_view()[i],
{
    let id = world.spawn();
    world.insert(id, Component::Player);
    world.insert(id, Component::Position { x: 0, y: 0 });
    world.insert(
        id,
        Component::CollisionShape { half_width: PLAYER_HALF_WIDTH, half_height: PLAYER_HALF_HEIGHT },
    );
    world.insert(id, Component::LevelEntity);
    id
}

/// Whether the pair names the live entity of slot `i`.
pub open spec fn pair_hits(slots: Seq<SlotView>, p: (EntityId, EntityId), i: int) -> bool {
    ||| (p.0.index == i && live_in(slots, p.0))
    ||| (p.1.index == i && live_in(slots, p.1))
}

/// Whether one of the pairs names the live entity of slot `i`.
pub open spec fn hit_by(slots: Seq<SlotView>, hits: Seq<(EntityId, EntityId)>, i: int) -> bool
    decreases hits.len(),
{
    hits.len() > 0 && (hit_by(slots, hits.drop_last(), i) || pair_hits(slots, hits.last(), i))
}

/// The slot after its entity is despawned.
pub open spec fn dead_slot(s: SlotView) -> SlotView {
    SlotView { generation: s.generation, alive: false, components: empty_table() }
}

/// Removes what the bullets hit: `hits` lists the `(bullet, enemy)` pairs
/// whose collision regions met this tick, and both entities of each pair are
/// despawned. Handles that are already stale are passed over.
pub fn resolve_bullet_hits(world: &mut World, hits: &Vec<(EntityId, EntityId)>)
    requires
        old(world).wf(),
    ensures
        final(world).wf(),
        final(world).camera_view() == old(world).camera_view(),
        final(world).slots_view().len() == old(world).slots_view().len(),
        forall|i: int|
            0 <= i < old(world).slots_view().len() ==> #[trigger] final(world).slots_view()[i] == if hit_by(
                old(world).slots_view(),
                hits@,
                i,
            ) {
                dead_slot(old(world).slots_view()[i])
            } else {
                old(world).slots_view()[i]
            },
{
    let ghost old_slots = world.slots_view();
    let mut j: usize = 0;
    while j < hits.len()
        invariant
            world.wf(),
            world.camera_view() == old(world).camera_view(),
            old_slots == old(world).slots_view(),
            world.slots_view().len() == old_slots.len(),
            j <= hits@.len(),
            forall|i: int|
                0 <= i < old_slots.len() ==> #[trigger] world.slots_view()[i] == if hit_by(
                    old_slots,
                    hits@.take(j as int),
                    i,
                ) {
                    dead_slot(old_slots[i])
                } else {
                    old_slots[i]
                },
        decreases hits@.len() - j,
    {
        let (bullet, enemy) = hits[j];
        let ghost before = world.slots_view();
        world.despawn(enemy);
        let ghost mid = world.slots_view();
        world.despawn(bullet);
        proof {
            let done = hits@.take(j + 1);
            assert(done.drop_last() =~= hits@.take(j as int));
            assert(done.last() == (bullet, enemy));
            assert forall|i: int| 0 <= i < old_slots.len() implies #[trigger] world.slots_view()[i]
                == if hit_by(old_slots, done, i) {
                dead_slot(old_slots[i])
            } else {
                old_slots[i]
            } by {
                let was = hit_by(old_slots, hits@.take(j as int), i);
                if pair_hits(old_slots, (bullet, enemy), i) && !was {
                    assert(before[i] == old_slots[i]);
                }
            }
        }
        j += 1;
    }
    assert(hits@.take(j as int) =~= hits@);
}

} // verus!
