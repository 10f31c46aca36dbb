use shoe_shmup::component::{Component, ComponentKind, PortableValue, Registry};
use shoe_shmup::snapshot::{scene_from_entities, DynamicEntity, Scene};
use shoe_shmup::world::World;

#[test]
fn scenario_two_entities_position_and_shape() {
    let mut world = World::new();
    let _other = world.spawn();
    let e1 = world.spawn();
    let e2 = world.spawn();
    assert_eq!(e1.index, 1);
    assert_eq!(e2.index, 2);
    world.insert(e1, Component::Position { x: 1, y: 2 });
    world.insert(e2, Component::Position { x: 3, y: 4 });
    world.insert(e2, Component::CollisionShape { half_width: 5, half_height: 6 });
    let mut registry = Registry::new();
    registry.register(ComponentKind::Position);
    registry.register(ComponentKind::CollisionShape);
    let scene = scene_from_entities(&world, &registry, &vec![e1, e2]);
    assert_eq!(scene.entities.len(), 2);
    assert_eq!(scene.entities[0].entity, 1);
    assert_eq!(scene.entities[0].components.len(), 1);
    assert_eq!(scene.entities[1].entity, 2);
    assert_eq!(scene.entities[1].components.len(), 2);
    assert_eq!(
        scene.entities[1].components,
        vec![
            (ComponentKind::Position, PortableValue::Pair(3, 4)),
            (ComponentKind::CollisionShape, PortableValue::Opaque(0)),
        ]
    );
}

#[test]
fn selective_inclusion_ignores_other_and_stale_entities() {
    let mut world = World::new();
    let mut all = Vec::new();
    for i in 0..10i64 {
        let id = world.spawn();
        world.insert(id, Component::Position { x: i, y: -i });
        all.push(id);
    }
    let stale = all[7];
    world.despawn(stale);
    let reused = world.spawn();
    assert_eq!(reused.index, stale.index);
    assert_ne!(reused.generation, stale.generation);
    let registry = Registry::standard();
    let ids = vec![all[5], all[2], stale];
    let scene = scene_from_entities(&world, &registry, &ids);
    let indices: Vec<u32> = scene.entities.iter().map(|e| e.entity).collect();
    assert_eq!(indices, vec![2, 5]);
    assert_eq!(
        scene.entities[0].components,
        vec![(ComponentKind::Position, PortableValue::Pair(2, -2))]
    );
}

#[test]
fn snapshot_of_nothing_is_empty() {
    let mut world = World::new();
    world.spawn();
    let scene = scene_from_entities(&world, &Registry::standard(), &Vec::new());
    assert_eq!(scene, Scene::new());
}

#[test]
fn registry_miss_is_skipped() {
    let mut world = World::new();
    let id = world.spawn();
    world.insert(id, Component::Position { x: 7, y: 8 });
    world.insert(id, Component::CollisionShape { half_width: 1, half_height: 1 });
    let scene = scene_from_entities(&world, &Registry::standard(), &vec![id]);
    assert_eq!(
        scene.entities,
        vec![DynamicEntity {
            entity: id.index,
            components: vec![(ComponentKind::Position, PortableValue::Pair(7, 8))],
        }]
    );
}

#[test]
fn entity_without_persistable_components_keeps_empty_record() {
    let mut world = World::new();
    let id = world.spawn();
    world.insert(id, Component::CollisionShape { half_width: 1, half_height: 1 });
    let scene = scene_from_entities(&world, &Registry::standard(), &vec![id]);
    assert_eq!(scene.entities.len(), 1);
    assert!(scene.entities[0].components.is_empty());
}

#[test]
fn components_follow_registration_order() {
    let mut world = World::new();
    let id = world.spawn();
    world.insert(id, Component::Enemy);
    world.insert(id, Component::Velocity { x: 1, y: 0 });
    world.insert(id, Component::Position { x: 0, y: 9 });
    let mut registry = Registry::new();
    registry.register(ComponentKind::Enemy);
    registry.register(ComponentKind::Position);
    registry.register(ComponentKind::Velocity);
    let scene = scene_from_entities(&world, &registry, &vec![id]);
    assert_eq!(
        scene.entities[0].components,
        vec![
            (ComponentKind::Enemy, PortableValue::Unit),
            (ComponentKind::Position, PortableValue::Pair(0, 9)),
            (ComponentKind::Velocity, PortableValue::Pair(1, 0)),
        ]
    );
}

#[test]
fn registry_register_is_idempotent_and_lookup_misses() {
    let mut registry = Registry::new();
    registry.register(ComponentKind::Enemy);
    registry.register(ComponentKind::Enemy);
    assert_eq!(registry.len(), 1);
    assert!(registry.lookup(ComponentKind::Enemy).is_some());
    assert!(registry.lookup(ComponentKind::Position).is_none());
    let entry = registry.lookup(ComponentKind::Enemy).unwrap();
    assert_eq!(entry.reconstruct(PortableValue::Unit), Some(Component::Enemy));
    assert_eq!(entry.reconstruct(PortableValue::Pair(1, 1)), None);
    assert_eq!(Registry::standard().len(), 6);
    assert!(!Registry::standard().contains(ComponentKind::CollisionShape));
}
