//! Verified core of a small rail shooter: an entity arena with per-kind
//! component slots, a registry of persistable component kinds, a snapshot
//! builder, a byte-level scene codec, a single-flight save coordinator and the
//! game-state machine that sequences loading, play, pause and death.
pub mod component;
pub mod world;
pub mod snapshot;
pub mod codec;
pub mod save;
pub mod state;
pub mod level;
pub mod bullet;
