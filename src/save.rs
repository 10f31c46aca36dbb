use crate::codec::{encode, encode_scene, valid_scene, EncodeError};
use crate::snapshot::Scene;
use vstd::prelude::*;

verus! {

/// Sent when the player asks for the level to be saved.
#[derive(Clone, Copy, Debug, PartialEq, Eq, Structural)]
pub struct SaveSceneEvent;

/// What one non-blocking poll of the background write reported.
#[derive(Clone, Copy, Debug, PartialEq, Eq, Structural)]
pub enum PollOutcome {
    Pending,
    /// The write is no longer pending, whether it succeeded or failed.
    Finished,
}

/// What the caller must do after a step of the coordinator.
#[derive(Clone, Debug, PartialEq, Eq)]
pub enum SaveAction {
    Nothing,
    /// Hand these bytes to a new background write.
    StartWrite(Vec<u8>),
}

/// The abstract state of the coordinator: whether a write is in flight, and
/// the encoded scene waiting for it to finish.
pub struct SaveState {
    pub in_flight: bool,
    pub queued: Option<Seq<u8>>,
}

/// The bytes an action hands to a new write, if any.
pub open spec fn started(a: SaveAction) -> Option<Seq<u8>> {
    match a {
        SaveAction::Nothing => None,
        SaveAction::StartWrite(b) => Some(b@),
    }
}

/// A save request with encoded bytes `b`: starts a write when none is in
/// flight, and otherwise keeps `b` as the one queued request, replacing any
/// earlier queued one.
pub open spec fn request_step(st: SaveState, b: Seq<u8>) -> (SaveState, Option<Seq<u8>>) {
    if st.in_flight {
        (SaveState { in_flight: true, queued: Some(b) }, None)
    } else {
        (SaveState { in_flight: true, queued: None }, Some(b))
    }
}

/// A poll: when the write in flight has finished, the queued request, if any,
/// is started; otherwise the coordinator becomes idle.
pub open spec fn poll_step(st: SaveState, o: PollOutcome) -> (SaveState, Option<Seq<u8>>) {
    if !st.in_flight || o == PollOutcome::Pending {
        (st, None)
    } else {
        match st.queued {
            Some(b) => (SaveState { in_flight: true, queued: None }, Some(b)),
            None => (SaveState { in_flight: false, queued: None }, None),
        }
    }
}

/// Hands encoded scenes to background writes, at most one at a time, and
/// keeps the latest request that arrives while a write is in flight.
pub struct SaveCoordinator {
    in_flight: bool,
    queued: Option<Vec<u8>>,
}

impl View for SaveCoordinator {
    type V = SaveState;

    closed spec fn view(&self) -> SaveState {
        SaveState {
            in_flight: self.in_flight,
            queued: match self.queued {
                Some(b) => Some(b@),
                None => None,
            },
        }
    }
}

impl SaveCoordinator {
    pub fn new() -> (r: SaveCoordinator)
        ensures
            r@ == (SaveState { in_flight: false, queued: None }),
    {
        SaveCoordinator { in_flight: false, queued: None }
    }

    pub fn in_flight(&self) -> (r: bool)
        ensures
            r == self@.in_flight,
    {
        self.in_flight
    }

    pub fn has_queued(&self) -> (r: bool)
        ensures
            r == self@.queued is Some,
    {
        self.queued.is_some()
    }

    /// Encodes `scene` and either starts its write or queues it. A scene the
    /// codec refuses is reported and leaves the coordinator as it was.
    pub fn request_save(&mut self, scene: &Scene) -> (r: Result<SaveAction, EncodeError>)
        ensures
            match r {
                Ok(a) => valid_scene(scene@) && (final(self)@, started(a)) == request_step(
                    old(self)@,
                    encode_scene(scene@),
                ),
                Err(_) => !valid_scene(scene@) && final(self)@ == old(self)@,
            },
    {
        match encode(scene) {
            Err(e) => Err(e),
            Ok(bytes) => {
                if self.in_flight {
                    self.queued = Some(bytes);
                    Ok(SaveAction::Nothing)
                } else {
                    self.in_flight = true;
                    self.queued = None;
                    Ok(SaveAction::StartWrite(bytes))
                }
            },
        }
    }

    /// Takes the outcome of this tick's poll of the write in flight.
    pub fn on_poll(&mut self, outcome: PollOutcome) -> (r: SaveAction)
        ensures
            (final(self)@, started(r)) == poll_step(old(self)@, outcome),
    {
        if !self.in_flight {
            return SaveAction::Nothing;
        }
        match outcome {
            PollOutcome::Pending => SaveAction::Nothing,
            PollOutcome::Finished => {
                match self.queued.take() {
                    Some(b) => SaveAction::StartWrite(b),
                    None => {
                        self.in_flight = false;
                        SaveAction::Nothing
                    },
                }
            },
        }
    }
}

/// A request made while a write is in flight is not lost: nothing new starts
/// at once, and when the write in flight finishes the request's bytes are the
/// ones written next, unless a later request has replaced them first.
pub proof fn lemma_single_in_flight(st: SaveState, b: Seq<u8>)
    requires
        st.in_flight,
    ensures
        request_step(st, b).1 is None,
        request_step(st, b).0.in_flight,
        poll_step(request_step(st, b).0, PollOutcome::Pending).1 is None,
        poll_step(request_step(st, b).0, PollOutcome::Finished).1 == Some(b),
        poll_step(request_step(st, b).0, PollOutcome::Finished).0.in_flight,
        forall|c: Seq<u8>|
            poll_step(#[trigger] request_step(request_step(st, b).0, c).0, PollOutcome::Finished).1
                == Some(c),
{
}

/// A write is started only when none is in flight, or when the one in flight
/// has just finished: at most one is ever in flight.
pub proof fn lemma_one_write_at_a_time(st: SaveState, b: Seq<u8>, o: PollOutcome)
    ensures
        request_step(st, b).1 is Some ==> !st.in_flight,
        poll_step(st, o).1 is Some ==> st.in_flight && o == PollOutcome::Finished,
        request_step(st, b).0.in_flight,
{
}

} // verus!
