use shoe_shmup::bullet::{BulletClip, MAX_BULLETS};
use shoe_shmup::codec::{decode, encode};
use shoe_shmup::component::{Component, ComponentKind, PortableValue, Registry};
use shoe_shmup::level::{
    despawn_level, enter_player_dead, entities_with, load_level, materialize_derived,
    on_player_hit, post_load_tick, resolve_bullet_hits, save_level, spawn_enemy, spawn_player,
    spawn_scene, ENEMY_HALF_LENGTH,
};
use shoe_shmup::save::{SaveAction, SaveCoordinator};
use shoe_shmup::snapshot::{DynamicEntity, Scene};
use shoe_shmup::state::{step, GameEvent, GameState};
use shoe_shmup::world::World;

#[test]
fn player_hit_tears_down_level() {
    let mut world = World::new();
    let player = spawn_player(&mut world);
    let e1 = spawn_enemy(&mut world, 10, 20);
    let e2 = spawn_enemy(&mut world, -5, 7);
    let camera = world.spawn();
    world.insert(camera, Component::Velocity { x: 0, y: 20 });
    world.set_camera((0, 340));
    let s = on_player_hit(&mut world, GameState::Playing, player);
    assert_eq!(s, GameState::PlayerDead);
    assert!(!world.is_live(player));
    let s = enter_player_dead(&mut world);
    assert_eq!(s, GameState::Menu);
    assert!(!world.is_live(e1));
    assert!(!world.is_live(e2));
    assert!(entities_with(&world, ComponentKind::LevelEntity).is_empty());
    assert!(world.is_live(camera));
    assert_eq!(world.camera(), (0, 0));
}

#[test]
fn player_hit_outside_play_changes_nothing() {
    let mut world = World::new();
    let player = spawn_player(&mut world);
    let s = on_player_hit(&mut world, GameState::Paused, player);
    assert_eq!(s, GameState::Paused);
    assert!(world.is_live(player));
}

#[test]
fn despawn_level_keeps_other_entities() {
    let mut world = World::new();
    let keep = world.spawn();
    world.insert(keep, Component::Position { x: 1, y: 1 });
    let gone = world.spawn();
    world.insert(gone, Component::LevelEntity);
    despawn_level(&mut world);
    assert!(world.is_live(keep));
    assert!(!world.is_live(gone));
}

#[test]
fn load_then_materialize_then_play() {
    let scene = Scene {
        entities: vec![
            DynamicEntity {
                entity: 40,
                components: vec![
                    (ComponentKind::Position, PortableValue::Pair(4, 5)),
                    (ComponentKind::Enemy, PortableValue::Unit),
                    (ComponentKind::CollisionShape, PortableValue::Unit),
                ],
            },
            DynamicEntity {
                entity: 41,
                components: vec![(ComponentKind::Position, PortableValue::Unit)],
            },
        ],
    };
    let mut world = World::new();
    let registry = Registry::standard();
    let (s, ids) = load_level(&mut world, &registry, &scene);
    assert_eq!(s, GameState::PostLoadLevel);
    assert_eq!(ids.len(), 2);
    assert_eq!(world.get(ids[0], ComponentKind::Position), Some(Component::Position { x: 4, y: 5 }));
    assert_eq!(world.get(ids[0], ComponentKind::Enemy), Some(Component::Enemy));
    assert_eq!(world.get(ids[0], ComponentKind::CollisionShape), None);
    assert_eq!(world.get(ids[1], ComponentKind::Position), None);
    assert!(world.is_live(ids[1]));
    let s = post_load_tick(&mut world);
    assert_eq!(s, GameState::Playing);
    assert_eq!(
        world.get(ids[0], ComponentKind::CollisionShape),
        Some(Component::CollisionShape {
            half_width: ENEMY_HALF_LENGTH,
            half_height: ENEMY_HALF_LENGTH
        })
    );
    assert_eq!(world.get(ids[0], ComponentKind::LevelEntity), Some(Component::LevelEntity));
    assert!(!materialize_derived(&mut world));
}

#[test]
fn post_load_stalls_without_enemies() {
    let mut world = World::new();
    let id = world.spawn();
    world.insert(id, Component::Position { x: 0, y: 0 });
    assert_eq!(post_load_tick(&mut world), GameState::PostLoadLevel);
}

#[test]
fn later_pair_of_same_kind_wins_on_load() {
    let scene = Scene {
        entities: vec![DynamicEntity {
            entity: 0,
            components: vec![
                (ComponentKind::Velocity, PortableValue::Pair(1, 1)),
                (ComponentKind::Velocity, PortableValue::Pair(2, 3)),
            ],
        }],
    };
    let mut world = World::new();
    let ids = spawn_scene(&mut world, &Registry::standard(), &scene);
    assert_eq!(world.get(ids[0], ComponentKind::Velocity), Some(Component::Velocity { x: 2, y: 3 }));
}

#[test]
fn save_level_snapshots_enemies_and_loads_back() {
    let mut world = World::new();
    spawn_player(&mut world);
    let e = spawn_enemy(&mut world, 12, -30);
    let mut saves = SaveCoordinator::new();
    let bytes = match save_level(&world, &Registry::standard(), &mut saves).unwrap() {
        SaveAction::StartWrite(b) => b,
        SaveAction::Nothing => panic!("no write started"),
    };
    let scene = decode(&bytes).unwrap();
    assert_eq!(
        scene.entities,
        vec![DynamicEntity {
            entity: e.index,
            components: vec![
                (ComponentKind::Position, PortableValue::Pair(12, -30)),
                (ComponentKind::Enemy, PortableValue::Unit),
                (ComponentKind::LevelEntity, PortableValue::Unit),
            ],
        }]
    );
    assert_eq!(encode(&scene).unwrap(), bytes);

    let mut fresh = World::new();
    let (s, ids) = load_level(&mut fresh, &Registry::standard(), &scene);
    assert_eq!(step(s, GameEvent::DerivedMaterialized), GameState::Playing);
    assert_eq!(post_load_tick(&mut fresh), GameState::Playing);
    assert_eq!(
        fresh.get(ids[0], ComponentKind::Position),
        Some(Component::Position { x: 12, y: -30 })
    );
}

#[test]
fn bullet_clip_shoots_and_reloads() {
    let mut clip = BulletClip::new(MAX_BULLETS);
    assert!(clip.full());
    for _ in 0..MAX_BULLETS {
        assert!(clip.try_shoot());
    }
    assert_eq!(clip.bullets, 0);
    assert!(!clip.try_shoot());
    assert_eq!(clip.bullets, 0);
    assert!(!clip.full());
    clip.reload();
    assert_eq!(clip.bullets, MAX_BULLETS);
    assert!(clip.full());
}

#[test]
fn bullet_hits_remove_bullet_and_enemy() {
    let mut world = World::new();
    let e1 = spawn_enemy(&mut world, 0, 100);
    let e2 = spawn_enemy(&mut world, 50, 100);
    let e3 = spawn_enemy(&mut world, 90, 100);
    let b1 = world.spawn();
    world.insert(b1, Component::Bullet);
    let b2 = world.spawn();
    world.insert(b2, Component::Bullet);
    let b3 = world.spawn();
    world.insert(b3, Component::Bullet);
    resolve_bullet_hits(&mut world, &vec![(b1, e1), (b1, e2), (b2, e2)]);
    assert!(!world.is_live(e1));
    assert!(!world.is_live(e2));
    assert!(!world.is_live(b1));
    assert!(!world.is_live(b2));
    assert!(world.is_live(e3));
    assert!(world.is_live(b3));
    assert_eq!(entities_with(&world, ComponentKind::Bullet), vec![b3]);
}
