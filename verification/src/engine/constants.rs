//! Limits and capacities of the engine.
use vstd::prelude::*;

verus! {

/// The largest number of nodes a published graph may hold.
pub const MAX_NODES: usize = 1024;

/// The capacity of the ring buffer that carries updates to the audio thread.
pub const UPDATE_RING_CAPACITY: usize = 32;

/// The capacity of the ring buffer that carries garbage back from the audio
/// thread, to be dropped elsewhere.
pub const GARBAGE_RING_CAPACITY: usize = 64;

/// The default capacity of a manager's command queue.
pub const DEFAULT_MANAGER_CAPACITY: usize = 64;

/// The largest number of buffer slots a published schedule may use.
pub const MAX_BUFFER_SLOTS: usize = 4096;

} // verus!
