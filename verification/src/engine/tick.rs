//! Positions on the timeline, counted in frames.
use vstd::prelude::*;

verus! {

/// A position (or a length) on the timeline, in frames.
#[derive(Clone, Copy, Debug, Default, PartialEq, Eq, Hash, Structural)]
pub struct Tick(pub u64);

impl Tick {
    /// The position `other` frames after this one.
    pub fn add(self, other: Tick) -> (r: Tick)
        requires
            self.0 + other.0 <= u64::MAX,
        ensures
            r.0 == self.0 + other.0,
    {
        Tick(self.0 + other.0)
    }

    /// The earlier of two positions.
    pub fn min(self, other: Tick) -> (r: Tick)
        ensures
            r.0 == if self.0 <= other.0 { self.0 } else { other.0 },
    {
        if self.0 <= other.0 { self } else { other }
    }

    /// The later of two positions.
    pub fn max(self, other: Tick) -> (r: Tick)
        ensures
            r.0 == if self.0 >= other.0 { self.0 } else { other.0 },
    {
        if self.0 >= other.0 { self } else { other }
    }

    /// A length of `frames` frames.
    pub fn from_frames(frames: usize) -> (r: Tick)
        ensures
            r.0 == frames,
    {
        Tick(frames as u64)
    }
}

} // verus!
