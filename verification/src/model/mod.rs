//! The project model: data kinds, sockets, nodes, the flow graph, tracks,
//! clips, and the project with its undo history.
use vstd::prelude::*;

pub mod socket;
pub mod nodes;
pub mod graph;
pub mod reach;
pub mod topo;
pub mod track;
pub mod clip;
pub mod asset;
pub mod project;

verus! {

/// The three data formats that travel between sockets.
#[derive(Clone, Copy, Debug, PartialEq, Eq, Structural)]
pub enum DataKind {
    /// Audio data.
    Audio,
    /// MIDI data.
    Midi,
    /// Control data: shaped like audio, but not meant for listening.
    Cv,
}

/// Which kinds may feed which: a kind feeds itself, and audio may also feed
/// control inputs.
pub open spec fn connects(from: DataKind, to: DataKind) -> bool {
    from == to || (from == DataKind::Audio && to == DataKind::Cv)
}

impl DataKind {
    /// Whether a socket of this kind may feed a socket of kind `dest`.
    pub fn can_connect_to(self, dest: Self) -> (r: bool)
        ensures
            r == connects(self, dest),
    {
        self == dest || (self == DataKind::Audio && dest == DataKind::Cv)
    }
}

/// Every kind may feed a socket of its own kind.
pub proof fn law_connects_reflexive(k: DataKind)
    ensures
        connects(k, k),
{
}

/// Only audio feeds a kind other than its own, and only control inputs.
pub proof fn law_connects_cross_kind(from: DataKind, to: DataKind)
    requires
        from != to,
    ensures
        connects(from, to) <==> (from == DataKind::Audio && to == DataKind::Cv),
{
}

/// Marker for audio data, parallel to `DataKind::Audio`.
#[derive(Clone, Copy, Debug, Default, PartialEq, Eq, Hash, Structural)]
pub struct Audio;

/// Marker for MIDI data, parallel to `DataKind::Midi`.
#[derive(Clone, Copy, Debug, Default, PartialEq, Eq, Hash, Structural)]
pub struct Midi;

/// Marker for control data, parallel to `DataKind::Cv`.
#[derive(Clone, Copy, Debug, Default, PartialEq, Eq, Hash, Structural)]
pub struct Cv;

/// A type-level data kind.
pub trait Kind {
    /// The `DataKind` value this marker stands for.
    spec fn kind() -> DataKind;

    /// The `DataKind` value this marker stands for, as a value.
    fn into_datakind() -> (r: DataKind)
        ensures
            r == Self::kind(),
    ;
}

impl Kind for Audio {
    open spec fn kind() -> DataKind {
        DataKind::Audio
    }

    fn into_datakind() -> (r: DataKind) {
        DataKind::Audio
    }
}

impl Kind for Midi {
    open spec fn kind() -> DataKind {
        DataKind::Midi
    }

    fn into_datakind() -> (r: DataKind) {
        DataKind::Midi
    }
}

impl Kind for Cv {
    open spec fn kind() -> DataKind {
        DataKind::Cv
    }

    fn into_datakind() -> (r: DataKind) {
        DataKind::Cv
    }
}

} // verus!
