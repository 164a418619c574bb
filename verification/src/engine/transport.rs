//! The transport: whether the engine is stopped, playing, recording or
//! paused, shared between the control side and the audio thread.
use vstd::prelude::*;
use core::sync::atomic::{AtomicU8, Ordering};

verus! {

/// The states of the transport.
#[derive(Clone, Copy, Debug, PartialEq, Eq, Structural)]
pub enum TransportState {
    Stopped,
    Playing,
    Recording,
    Paused,
}

/// The code under which the transport stores each state: its position in
/// the declaration, from 0.
pub open spec fn state_code(s: TransportState) -> u8 {
    match s {
        TransportState::Stopped => 0,
        TransportState::Playing => 1,
        TransportState::Recording => 2,
        TransportState::Paused => 3,
    }
}

impl TransportState {
    /// The code under which the transport stores this state.
    pub fn code(&self) -> (r: u8)
        ensures
            r == state_code(*self),
    {
        match self {
            TransportState::Stopped => 0,
            TransportState::Playing => 1,
            TransportState::Recording => 2,
            TransportState::Paused => 3,
        }
    }

    /// Whether `code` is the code of the playing state.
    pub fn is_playing_code(code: u8) -> (r: bool)
        ensures
            r == (code == state_code(TransportState::Playing)),
    {
        code == TransportState::Playing.code()
    }
}

/// Distinct states have distinct codes.
pub proof fn law_state_codes_distinct(a: TransportState, b: TransportState)
    ensures
        state_code(a) == state_code(b) <==> a == b,
{
}

/// The transport state, held as the code of a `TransportState` in an
/// atomic byte. Other threads may change it at any time, so what a read
/// gives back is not known in advance.
pub struct Transport(AtomicU8);

impl Transport {
    /// A transport holding the code of `Stopped`.
    pub fn new() -> (r: Self) {
        Transport(AtomicU8::new(TransportState::Stopped.code()))
    }

    /// Stores the code of `to`.
    pub fn transport(&self, to: TransportState) {
        self.0.store(to.code(), Ordering::Relaxed);
    }

    /// Stores the code of `Playing`.
    pub fn play(&self) {
        self.transport(TransportState::Playing);
    }

    /// Stores the code of `Stopped`.
    pub fn stop(&self) {
        self.transport(TransportState::Stopped);
    }

    /// Whether the code read now is that of `Playing`.
    pub fn is_playing(&self) -> (r: bool) {
        TransportState::is_playing_code(self.0.load(Ordering::Relaxed))
    }

    /// Stores the code that `other` holds.
    pub fn replace(&self, other: Self) {
        let code = other.0.load(Ordering::Relaxed);
        self.0.swap(code, Ordering::Relaxed);
    }
}

} // verus!
