use vstd::prelude::*;

verus! {

/// The phases of the game.
#[derive(Clone, Copy, Debug, PartialEq, Eq, Hash, Structural)]
pub enum GameState {
    /// Asset collections are loading.
    LoadingAssets,
    /// The level's scene is being requested from the asset system.
    LoadLevel,
    /// The loaded scene is waiting for its derived-only components.
    PostLoadLevel,
    Playing,
    Menu,
    Paused,
    PlayerDead,
}

/// What can happen to the game in one tick.
#[derive(Clone, Copy, Debug, PartialEq, Eq, Structural)]
pub enum GameEvent {
    /// Every declared asset collection has finished loading.
    AssetsLoaded,
    /// The player pressed "play" in the menu.
    PlayPressed,
    /// The persisted level scene was handed to the asset system.
    SceneRequested,
    /// The post-load pass found new entities missing a derived-only
    /// component and gave it to them.
    DerivedMaterialized,
    PausePressed,
    ResumePressed,
    /// The player asked for a save from the pause menu.
    SaveRequested,
    /// The player's collision region met a hostile one.
    PlayerHit,
    /// The game has entered `PlayerDead` and torn the level down.
    DeathHandled,
}

/// The declared transitions, each with its trigger; `SaveRequested` in
/// `Paused` is declared and leaves the state as it is.
pub open spec fn declared(s: GameState, e: GameEvent, t: GameState) -> bool {
    match (s, e) {
        (GameState::LoadingAssets, GameEvent::AssetsLoaded) => t == GameState::Menu,
        (GameState::Menu, GameEvent::PlayPressed) => t == GameState::LoadLevel,
        (GameState::LoadLevel, GameEvent::SceneRequested) => t == GameState::PostLoadLevel,
        (GameState::PostLoadLevel, GameEvent::DerivedMaterialized) => t == GameState::Playing,
        (GameState::Playing, GameEvent::PausePressed) => t == GameState::Paused,
        (GameState::Paused, GameEvent::ResumePressed) => t == GameState::Playing,
        (GameState::Paused, GameEvent::SaveRequested) => t == GameState::Paused,
        (GameState::Playing, GameEvent::PlayerHit) => t == GameState::PlayerDead,
        (GameState::PlayerDead, GameEvent::DeathHandled) => t == GameState::Menu,
        _ => false,
    }
}

/// The state after `e` in `s`: the declared target, or `s` itself when `e`
/// triggers nothing in `s`.
pub open spec fn next_state(s: GameState, e: GameEvent) -> GameState {
    match (s, e) {
        (GameState::LoadingAssets, GameEvent::AssetsLoaded) => GameState::Menu,
        (GameState::Menu, GameEvent::PlayPressed) => GameState::LoadLevel,
        (GameState::LoadLevel, GameEvent::SceneRequested) => GameState::PostLoadLevel,
        (GameState::PostLoadLevel, GameEvent::DerivedMaterialized) => GameState::Playing,
        (GameState::Playing, GameEvent::PausePressed) => GameState::Paused,
        (GameState::Paused, GameEvent::ResumePressed) => GameState::Playing,
        (GameState::Playing, GameEvent::PlayerHit) => GameState::PlayerDead,
        (GameState::PlayerDead, GameEvent::DeathHandled) => GameState::Menu,
        _ => s,
    }
}

/// Whether `e` triggers a declared transition in `s`.
pub open spec fn triggers(s: GameState, e: GameEvent) -> bool {
    exists|t: GameState| declared(s, e, t)
}

pub fn step(s: GameState, e: GameEvent) -> (r: GameState)
    ensures
        r == next_state(s, e),
{
    match (s, e) {
        (GameState::LoadingAssets, GameEvent::AssetsLoaded) => GameState::Menu,
        (GameState::Menu, GameEvent::PlayPressed) => GameState::LoadLevel,
        (GameState::LoadLevel, GameEvent::SceneRequested) => GameState::PostLoadLevel,
        (GameState::PostLoadLevel, GameEvent::DerivedMaterialized) => GameState::Playing,
        (GameState::Playing, GameEvent::PausePressed) => GameState::Paused,
        (GameState::Paused, GameEvent::ResumePressed) => GameState::Playing,
        (GameState::Playing, GameEvent::PlayerHit) => GameState::PlayerDead,
        (GameState::PlayerDead, GameEvent::DeathHandled) => GameState::Menu,
        _ => s,
    }
}

/// Whether a save request is honoured in `s`: only from the pause menu.
pub fn save_allowed(s: GameState) -> (r: bool)
    ensures
        r == (s == GameState::Paused),
{
    s == GameState::Paused
}

/// Every declared transition is taken on its trigger, and no other change of
/// state can happen: an event that triggers nothing leaves the state as it is.
pub proof fn lemma_state_machine_coverage(s: GameState, e: GameEvent)
    ensures
        forall|t: GameState| declared(s, e, t) ==> next_state(s, e) == t,
        !triggers(s, e) ==> next_state(s, e) == s,
        next_state(s, e) != s ==> declared(s, e, next_state(s, e)),
{
    if !triggers(s, e) {
        assert(!declared(s, e, next_state(s, e)));
    }
}

} // verus!
