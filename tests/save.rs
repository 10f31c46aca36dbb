use shoe_shmup::codec::{decode, EncodeError};
use shoe_shmup::component::{ComponentKind, PortableValue};
use shoe_shmup::save::{PollOutcome, SaveAction, SaveCoordinator};
use shoe_shmup::snapshot::{DynamicEntity, Scene};

fn scene_of(index: u32) -> Scene {
    Scene {
        entities: vec![DynamicEntity {
            entity: index,
            components: vec![(ComponentKind::Enemy, PortableValue::Unit)],
        }],
    }
}

fn started_bytes(a: SaveAction) -> Vec<u8> {
    match a {
        SaveAction::StartWrite(b) => b,
        SaveAction::Nothing => panic!("no write started"),
    }
}

#[test]
fn empty_scene_save_writes_empty_document() {
    let mut saves = SaveCoordinator::new();
    let bytes = started_bytes(saves.request_save(&Scene::new()).unwrap());
    assert_eq!(bytes, b"[]".to_vec());
    assert_eq!(decode(&bytes), Ok(Scene::new()));
    assert!(saves.in_flight());
}

#[test]
fn second_request_is_queued_and_replaces_earlier_queue() {
    let mut saves = SaveCoordinator::new();
    let first = started_bytes(saves.request_save(&scene_of(1)).unwrap());
    assert_eq!(decode(&first), Ok(scene_of(1)));
    assert_eq!(saves.request_save(&scene_of(2)), Ok(SaveAction::Nothing));
    assert!(saves.has_queued());
    assert_eq!(saves.request_save(&scene_of(3)), Ok(SaveAction::Nothing));
    assert_eq!(saves.on_poll(PollOutcome::Pending), SaveAction::Nothing);
    assert!(saves.in_flight());
    let next = started_bytes(saves.on_poll(PollOutcome::Finished));
    assert_eq!(decode(&next), Ok(scene_of(3)));
    assert!(saves.in_flight());
    assert!(!saves.has_queued());
    assert_eq!(saves.on_poll(PollOutcome::Finished), SaveAction::Nothing);
    assert!(!saves.in_flight());
}

#[test]
fn poll_without_task_does_nothing() {
    let mut saves = SaveCoordinator::new();
    assert_eq!(saves.on_poll(PollOutcome::Finished), SaveAction::Nothing);
    assert!(!saves.in_flight());
}

#[test]
fn refused_scene_leaves_coordinator_unchanged() {
    let mut saves = SaveCoordinator::new();
    let bad = Scene {
        entities: vec![
            DynamicEntity { entity: 1, components: vec![] },
            DynamicEntity { entity: 1, components: vec![] },
        ],
    };
    assert_eq!(saves.request_save(&bad), Err(EncodeError::DuplicateEntity(1)));
    assert!(!saves.in_flight());
    assert!(!saves.has_queued());
}
