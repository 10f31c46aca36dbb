use shoe_shmup::state::{save_allowed, step, GameEvent, GameState};

const STATES: [GameState; 7] = [
    GameState::LoadingAssets,
    GameState::LoadLevel,
    GameState::PostLoadLevel,
    GameState::Playing,
    GameState::Menu,
    GameState::Paused,
    GameState::PlayerDead,
];

const EVENTS: [GameEvent; 9] = [
    GameEvent::AssetsLoaded,
    GameEvent::PlayPressed,
    GameEvent::SceneRequested,
    GameEvent::DerivedMaterialized,
    GameEvent::PausePressed,
    GameEvent::ResumePressed,
    GameEvent::SaveRequested,
    GameEvent::PlayerHit,
    GameEvent::DeathHandled,
];

fn declared() -> Vec<(GameState, GameEvent, GameState)> {
    vec![
        (GameState::LoadingAssets, GameEvent::AssetsLoaded, GameState::Menu),
        (GameState::Menu, GameEvent::PlayPressed, GameState::LoadLevel),
        (GameState::LoadLevel, GameEvent::SceneRequested, GameState::PostLoadLevel),
        (GameState::PostLoadLevel, GameEvent::DerivedMaterialized, GameState::Playing),
        (GameState::Playing, GameEvent::PausePressed, GameState::Paused),
        (GameState::Paused, GameEvent::ResumePressed, GameState::Playing),
        (GameState::Paused, GameEvent::SaveRequested, GameState::Paused),
        (GameState::Playing, GameEvent::PlayerHit, GameState::PlayerDead),
        (GameState::PlayerDead, GameEvent::DeathHandled, GameState::Menu),
    ]
}

#[test]
fn every_declared_transition_fires() {
    for (s, e, t) in declared() {
        assert_eq!(step(s, e), t, "{:?} on {:?}", s, e);
    }
}

#[test]
fn no_undeclared_transition() {
    let table = declared();
    for s in STATES {
        for e in EVENTS {
            let t = step(s, e);
            if !table.iter().any(|(a, b, _)| *a == s && *b == e) {
                assert_eq!(t, s, "{:?} on {:?}", s, e);
            }
        }
    }
}

#[test]
fn full_game_cycle() {
    let mut s = GameState::LoadingAssets;
    for e in [
        GameEvent::AssetsLoaded,
        GameEvent::PlayPressed,
        GameEvent::SceneRequested,
        GameEvent::DerivedMaterialized,
        GameEvent::PausePressed,
        GameEvent::SaveRequested,
        GameEvent::ResumePressed,
        GameEvent::PlayerHit,
        GameEvent::DeathHandled,
    ] {
        s = step(s, e);
    }
    assert_eq!(s, GameState::Menu);
}

#[test]
fn saves_only_from_pause() {
    for s in STATES {
        assert_eq!(save_allowed(s), s == GameState::Paused);
    }
}
