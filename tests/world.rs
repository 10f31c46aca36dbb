use shoe_shmup::component::{Component, ComponentKind};
use shoe_shmup::world::{EntityId, World};

#[test]
fn spawn_insert_get_remove() {
    let mut world = World::new();
    let id = world.spawn();
    assert_eq!(id, EntityId { index: 0, generation: 0 });
    assert!(world.is_live(id));
    assert!(world.insert(id, Component::Velocity { x: 1, y: 2 }));
    assert!(world.insert(id, Component::Velocity { x: 3, y: 4 }));
    assert_eq!(world.get(id, ComponentKind::Velocity), Some(Component::Velocity { x: 3, y: 4 }));
    assert!(world.has(id, ComponentKind::Velocity));
    assert!(!world.has(id, ComponentKind::Position));
    assert!(world.remove(id, ComponentKind::Velocity));
    assert_eq!(world.get(id, ComponentKind::Velocity), None);
}

#[test]
fn stale_handle_after_reuse() {
    let mut world = World::new();
    let a = world.spawn();
    let b = world.spawn();
    world.insert(a, Component::Enemy);
    assert!(world.despawn(a));
    assert!(!world.despawn(a));
    assert!(!world.is_live(a));
    let c = world.spawn();
    assert_eq!(c, EntityId { index: 0, generation: 1 });
    assert!(!world.is_live(a));
    assert!(!world.insert(a, Component::Player));
    assert_eq!(world.get(a, ComponentKind::Player), None);
    assert_eq!(world.get(c, ComponentKind::Enemy), None);
    assert!(world.is_live(b));
    assert_eq!(world.slot_count(), 2);
    assert_eq!(world.id_at(0), Some(c));
}

#[test]
fn camera_starts_at_origin() {
    let mut world = World::new();
    assert_eq!(world.camera(), (0, 0));
    world.set_camera((5, -3));
    assert_eq!(world.camera(), (5, -3));
}
