use shoe_shmup::codec::{decode, encode, DecodeError, EncodeError};
use shoe_shmup::component::{ComponentKind, PortableValue};
use shoe_shmup::snapshot::{DynamicEntity, Scene};

fn sample() -> Scene {
    Scene {
        entities: vec![
            DynamicEntity {
                entity: 1,
                components: vec![
                    (ComponentKind::Enemy, PortableValue::Unit),
                    (ComponentKind::Position, PortableValue::Pair(3, -4)),
                ],
            },
            DynamicEntity { entity: 0xdead_beef, components: vec![] },
            DynamicEntity {
                entity: 7,
                components: vec![
                    (ComponentKind::Velocity, PortableValue::Pair(i64::MIN, i64::MAX)),
                    (ComponentKind::FixedOffset, PortableValue::Pair(0, -1)),
                    (ComponentKind::LevelEntity, PortableValue::Unit),
                    (ComponentKind::Player, PortableValue::Unit),
                    (ComponentKind::Bullet, PortableValue::Unit),
                ],
            },
        ],
    }
}

#[test]
fn encode_gives_exact_text() {
    let scene = Scene {
        entities: vec![DynamicEntity {
            entity: 1,
            components: vec![
                (ComponentKind::Enemy, PortableValue::Unit),
                (ComponentKind::Position, PortableValue::Pair(3, -4)),
            ],
        }],
    };
    let bytes = encode(&scene).unwrap();
    assert_eq!(
        String::from_utf8(bytes).unwrap(),
        "[(00000001EuPp+0000000000000003-0000000000000004)]"
    );
}

#[test]
fn round_trip_keeps_scene() {
    let scene = sample();
    let bytes = encode(&scene).unwrap();
    assert_eq!(decode(&bytes), Ok(scene));
}

#[test]
fn round_trip_extreme_values() {
    let scene = Scene {
        entities: vec![DynamicEntity {
            entity: u32::MAX,
            components: vec![(ComponentKind::Position, PortableValue::Pair(i64::MIN, -i64::MAX))],
        }],
    };
    let bytes = encode(&scene).unwrap();
    let text = String::from_utf8(bytes.clone()).unwrap();
    assert_eq!(text, "[(ffffffffPp-8000000000000000-7fffffffffffffff)]");
    assert_eq!(decode(&bytes), Ok(scene));
}

#[test]
fn empty_scene_round_trip() {
    let scene = Scene::new();
    let bytes = encode(&scene).unwrap();
    assert_eq!(bytes, b"[]".to_vec());
    assert_eq!(decode(&bytes), Ok(Scene::new()));
}

#[test]
fn encode_refuses_duplicate_index() {
    let scene = Scene {
        entities: vec![
            DynamicEntity { entity: 4, components: vec![] },
            DynamicEntity { entity: 4, components: vec![(ComponentKind::Enemy, PortableValue::Opaque(1))] },
        ],
    };
    assert_eq!(encode(&scene), Err(EncodeError::DuplicateEntity(4)));
}

#[test]
fn encode_refuses_opaque_value() {
    let scene = Scene {
        entities: vec![DynamicEntity {
            entity: 9,
            components: vec![
                (ComponentKind::Enemy, PortableValue::Unit),
                (ComponentKind::CollisionShape, PortableValue::Opaque(0)),
            ],
        }],
    };
    assert_eq!(
        encode(&scene),
        Err(EncodeError::UnsupportedValue { entity: 9, kind: ComponentKind::CollisionShape })
    );
}

#[test]
fn decode_refuses_malformed_text() {
    let bad: Vec<&[u8]> = vec![
        b"",
        b"[",
        b"]",
        b"[]x",
        b"[(00000001)",
        b"[(0000001)]",
        b"[(0000000A)]",
        b"[(00000001Q)]",
        b"[(00000001Px)]",
        b"[(00000001Pp+0000000000000003)]",
        b"[(00000001Pp-0000000000000000+0000000000000000)]",
        b"[(00000001Pp+8000000000000000+0000000000000000)]",
        b"[(00000001Pp*0000000000000001+0000000000000000)]",
    ];
    for b in bad {
        assert_eq!(decode(&b.to_vec()), Err(DecodeError::Malformed), "{:?}", b);
    }
}

#[test]
fn decode_refuses_duplicate_index() {
    assert_eq!(
        decode(&b"[(00000002)(00000003)(00000002Eu)]".to_vec()),
        Err(DecodeError::DuplicateEntity(2))
    );
}

#[test]
fn decode_reads_hand_written_text() {
    let scene = decode(&b"[(0000000aVp-000000000000000f+0000000000000010)]".to_vec()).unwrap();
    assert_eq!(
        scene.entities,
        vec![DynamicEntity {
            entity: 10,
            components: vec![(ComponentKind::Velocity, PortableValue::Pair(-15, 16))],
        }]
    );
}
