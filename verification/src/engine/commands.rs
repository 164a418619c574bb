//! Commands: the edits and queries that the engine's actors run, each as a
//! value that carries its arguments.
use vstd::prelude::*;
use core::marker::PhantomData;
use crate::arena::slot_limit;
use crate::engine::errors::EngineError;
use crate::engine::tick::Tick;
use crate::engine::transport::{Transport, TransportState};
use crate::ids::{AudioAssetID, AudioClipID, AudioTrackID, InputSocketID, NodeID, OutputSocketID};
use crate::model::graph::node_added_to;
use crate::model::nodes::NodeKind;
use crate::model::project::{
    clip_added, clip_moved, input_added, link_added, link_removed, same_project, track_added, track_removed, undo_step,
    HistoryState, ProjectData, ProjectHistory,
};
use crate::model::socket::Socket;
use crate::model::Kind;

verus! {

/// Read access: a command that only looks at an actor's data.
pub struct Read;

/// Write access: a command that changes an actor's data.
pub struct Write;

/// Access by shared reference.
pub struct Ref;

/// Access by exclusive reference.
pub struct Mutate;

/// Where the output of a command goes once it has run.
pub trait ReplyPort<O> {
    /// Hands `output` on.
    fn send(self, output: O);
}

/// Discards the output: nobody is waiting for it.
pub struct NoReply;

impl<O> ReplyPort<O> for NoReply {
    fn send(self, output: O) {
    }
}

/// A command packed with where its output goes, ready to run on an actor
/// of type `A`.
pub trait Envelope<A> {
    /// Runs the command on `actor` and hands its output on.
    fn handle(self: Box<Self>, actor: &mut A);
}

/// Marks the commands of the project actor.
pub trait ProjectCommand {}

/// `h1` follows `h0` by one undoable edit: a copy of the project of `h0`
/// was kept for undo and what could be redone was dropped.
pub open spec fn edited(h0: HistoryState, h1: HistoryState) -> bool {
    &&& h1.1.len() == h0.1.len() + 1
    &&& h1.1.drop_last() == h0.1
    &&& same_project(h1.1.last(), h0.0)
    &&& h1.2 == Seq::<ProjectData>::empty()
}

/// Adds a track of kind `K`, read by a new reader node.
pub struct AddTrack<K: Kind> {
    pub name: String,
    pub kind: K,
    pub channels: u16,
}

impl<K: Kind> ProjectCommand for AddTrack<K> {}

impl<K: Kind> AddTrack<K> {
    /// Adds the track as an undoable edit, and returns the identifiers of
    /// the track and of its reader node.
    pub fn execute(self, history: &mut ProjectHistory) -> (r: (AudioTrackID, NodeID))
        requires
            old(history).present().wf(),
            old(history).present().tracks_v().len() < slot_limit(),
            old(history).present().graph.nodes_v().len() < slot_limit(),
            old(history).present().graph.outs_v().len() < slot_limit(),
        ensures
            edited(old(history).state(), final(history).state()),
            final(history).present().wf(),
            track_added(old(history).present(), final(history).present(), self.name@, self.channels, r),
    {
        history.checkpoint();
        history.project_mut().add_track(self.name, self.channels)
    }
}

/// Removes a track, its reader node and its clips.
pub struct RemoveTrack(pub AudioTrackID);

impl ProjectCommand for RemoveTrack {}

impl RemoveTrack {
    /// Removes the track as an undoable edit.
    pub fn execute(self, history: &mut ProjectHistory) -> (r: Result<(), EngineError>)
        requires
            old(history).present().wf(),
            old(history).present().tracks_v().contains_key(self.0.raw()) ==> {
                let p = old(history).present();
                let n = p.tracks_v()[self.0.raw()].linked_node_id->0.raw();
                forall|j: int| 0 <= j < p.graph.ins_of(n).len() ==> p.graph.links_v().contains_key(#[trigger] p.graph.ins_of(n)[j].raw())
            },
        ensures
            edited(old(history).state(), final(history).state()),
            final(history).present().wf(),
            track_removed(old(history).present(), final(history).present(), self.0, r),
    {
        history.checkpoint();
        history.project_mut().remove_track(self.0)
    }
}

/// Adds a clip to a track. The clip runs for `end` ticks from `start`.
pub struct AddClip {
    pub track_id: AudioTrackID,
    pub start: Tick,
    pub end: Tick,
    pub asset_id: AudioAssetID,
}

impl ProjectCommand for AddClip {}

impl AddClip {
    /// Adds the clip as an undoable edit.
    pub fn execute(self, history: &mut ProjectHistory) -> (r: Result<AudioClipID, EngineError>)
        requires
            old(history).present().wf(),
            old(history).present().clips_v().len() < slot_limit(),
        ensures
            edited(old(history).state(), final(history).state()),
            final(history).present().wf(),
            clip_added(old(history).present(), final(history).present(), self.track_id, self.start, self.end, self.asset_id, r),
    {
        history.checkpoint();
        history.project_mut().add_clip_to_track(self.track_id, self.start, self.end, self.asset_id)
    }
}

/// Moves a clip on a track to a new start.
pub struct MoveClip {
    pub track: AudioTrackID,
    pub clip: AudioClipID,
    pub new_start: Tick,
}

impl ProjectCommand for MoveClip {}

impl MoveClip {
    /// Moves the clip as an undoable edit.
    pub fn execute(self, history: &mut ProjectHistory) -> (r: Result<(), EngineError>)
        requires
            old(history).present().wf(),
        ensures
            edited(old(history).state(), final(history).state()),
            final(history).present().wf(),
            clip_moved(old(history).present(), final(history).present(), self.track, self.clip, self.new_start, r),
    {
        history.checkpoint();
        history.project_mut().move_clip(self.track, self.clip, self.new_start)
    }
}

/// Adds a node to the flow graph.
pub struct AddNode {
    pub node: NodeKind,
}

impl ProjectCommand for AddNode {}

impl AddNode {
    /// Adds the node as an undoable edit and returns its identifier.
    pub fn execute(self, history: &mut ProjectHistory) -> (r: NodeID)
        requires
            old(history).present().wf(),
            old(history).present().graph.has_room_for(self.node),
        ensures
            edited(old(history).state(), final(history).state()),
            final(history).present().wf(),
            ({
                let p0 = old(history).present();
                let p1 = final(history).present();
                &&& node_added_to(p0.graph, p1.graph, self.node, r)
                &&& p1.tracks_v() == p0.tracks_v()
                &&& p1.clips_v() == p0.clips_v()
            }),
    {
        history.checkpoint();
        let project = history.project_mut();
        let ghost p0 = *project;
        let id = project.graph.add_node(self.node);
        proof {
            assert forall|t: u64| #[trigger] project.tracks_v().contains_key(t) implies crate::model::project::reads_track(
                project.graph, t, project.tracks_v()[t].linked_node_id) by {
                assert(crate::model::project::reads_track(p0.graph, t, p0.tracks_v()[t].linked_node_id));
            }
        }
        id
    }
}

/// Links an output socket into an input socket.
pub struct AddLink {
    pub from: OutputSocketID,
    pub to: InputSocketID,
}

impl ProjectCommand for AddLink {}

impl AddLink {
    /// Adds the link as an undoable edit.
    pub fn execute(self, history: &mut ProjectHistory) -> (r: Result<Option<OutputSocketID>, EngineError>)
        requires
            old(history).present().wf(),
            old(history).present().graph.outs_v().contains_key(self.from.raw()),
            old(history).present().graph.ins_v().contains_key(self.to.raw()),
            crate::model::connects(old(history).present().graph.outs_v()[self.from.raw()].kind,
                old(history).present().graph.ins_v()[self.to.raw()].kind) ==> old(history).present().graph.links_closed(),
        ensures
            edited(old(history).state(), final(history).state()),
            final(history).present().wf(),
            link_added(old(history).present(), final(history).present(), self.from, self.to, r),
    {
        history.checkpoint();
        history.project_mut().add_link(self.from, self.to)
    }
}

/// Removes the link from an output socket into an input socket.
pub struct RemoveLink {
    pub from: OutputSocketID,
    pub to: InputSocketID,
}

impl ProjectCommand for RemoveLink {}

impl RemoveLink {
    /// Removes the link as an undoable edit.
    pub fn execute(self, history: &mut ProjectHistory)
        requires
            old(history).present().wf(),
        ensures
            edited(old(history).state(), final(history).state()),
            final(history).present().wf(),
            link_removed(old(history).present(), final(history).present(), self.from, self.to),
    {
        history.checkpoint();
        history.project_mut().remove_link(self.from, self.to);
    }
}

/// Adds an input socket of kind `K`, named "in", to a node.
pub struct AddNodeInput<K: Kind> {
    pub node_id: NodeID,
    pub _p: PhantomData<K>,
}

impl<K: Kind> ProjectCommand for AddNodeInput<K> {}

impl<K: Kind> AddNodeInput<K> {
    /// The command that adds an input to `node_id`.
    pub fn to(node_id: NodeID) -> (r: Self)
        ensures
            r.node_id == node_id,
    {
        AddNodeInput { node_id, _p: PhantomData }
    }

    /// Adds the input socket as an undoable edit.
    pub fn execute(self, history: &mut ProjectHistory) -> (r: Result<InputSocketID, EngineError>)
        requires
            old(history).present().wf(),
            old(history).present().graph.nodes_v().contains_key(self.node_id.raw()),
            old(history).present().graph.ins_v().len() < slot_limit(),
        ensures
            edited(old(history).state(), final(history).state()),
            final(history).present().wf(),
            input_added(old(history).present(), final(history).present(), self.node_id, (K::kind(), "in"@, true), r),
    {
        history.checkpoint();
        let socket = Socket::new(K::into_datakind(), "in".to_owned(), true);
        proof {
            reveal_strlit("in");
        }
        history.project_mut().add_input_socket_to_node(self.node_id, socket)
    }
}

/// Removes an input socket from a node.
pub struct RemoveNodeInput {
    pub node_id: NodeID,
}

impl ProjectCommand for RemoveNodeInput {}

/// Asks for the identifier of the `Master` node.
pub struct GetMasterNodeId;

impl ProjectCommand for GetMasterNodeId {}

impl GetMasterNodeId {
    /// The `Master` node of the current project.
    pub fn execute(self, history: &ProjectHistory) -> (r: NodeID)
        ensures
            r == history.present().graph.master_node_id,
    {
        history.project().graph.master_node_id
    }
}

/// Asks for the input socket of a node at a position.
pub struct InputSocketOf(pub NodeID, pub usize);

impl ProjectCommand for InputSocketOf {}

impl InputSocketOf {
    /// The input socket of node `self.0` at position `self.1`.
    pub fn execute(self, history: &ProjectHistory) -> (r: InputSocketID)
        requires
            self.1 < history.present().graph.ins_of(self.0.raw()).len(),
        ensures
            r == history.present().graph.ins_of(self.0.raw())[self.1 as int],
    {
        history.project().graph.inputs_of(self.0)[self.1]
    }
}

/// Asks for the output socket of a node at a position.
pub struct OutputSocketOf(pub NodeID, pub usize);

impl ProjectCommand for OutputSocketOf {}

impl OutputSocketOf {
    /// The output socket of node `self.0` at position `self.1`.
    pub fn execute(self, history: &ProjectHistory) -> (r: OutputSocketID)
        requires
            self.1 < history.present().graph.outs_of(self.0.raw()).len(),
        ensures
            r == history.present().graph.outs_of(self.0.raw())[self.1 as int],
    {
        history.project().graph.outputs_of(self.0)[self.1]
    }
}

/// Sets the transport to a state.
pub struct TransportCmd(pub TransportState);

impl TransportCmd {
    /// Stores the code of the state in `transport`.
    pub fn execute(self, transport: &Transport) {
        transport.transport(self.0);
    }
}

/// Starts playback.
pub struct Play;

impl Play {
    /// Stores the code of `Playing` in `transport`.
    pub fn execute(self, transport: &Transport) {
        transport.play();
    }
}

/// Asks to be told when an audio asset has loaded.
pub struct SubscribeAudioAsset(pub AudioAssetID);

/// Asks for an audio asset once it has loaded.
pub struct WaitForAudioAsset(pub AudioAssetID);

/// Asks to load the audio file at a path, resampled to a sample rate.
pub struct LoadAudioAsset(pub String, pub u32);

/// Undoing an edit brings back a project with the same tracks, clips and
/// graph as before the edit, and the undo stack as it was.
pub proof fn law_undo_reverts_edit(h0: HistoryState, h1: HistoryState)
    requires
        edited(h0, h1),
    ensures
        same_project(undo_step(h1).0, h0.0),
        undo_step(h1).1 == h0.1,
        undo_step(h1).2 == seq![h1.0],
{
    assert(Seq::<ProjectData>::empty().push(h1.0) =~= seq![h1.0]);
}

/// Removing a link that was just added into a socket that had no link
/// brings back the links as they were.
pub proof fn law_remove_link_undoes_add_link(
    p0: ProjectData,
    p1: ProjectData,
    p2: ProjectData,
    from: OutputSocketID,
    to: InputSocketID,
    r: Result<Option<OutputSocketID>, EngineError>,
)
    requires
        link_added(p0, p1, from, to, r),
        r is Ok,
        !p0.graph.links_v().contains_key(to.raw()),
        link_removed(p1, p2, from, to),
    ensures
        p2.graph.links_v() == p0.graph.links_v(),
{
    let from_kind = p0.graph.outs_v()[from.raw()].kind;
    let to_kind = p0.graph.ins_v()[to.raw()].kind;
    assert(crate::model::connects(from_kind, to_kind));
    assert(p0.graph.links_v().insert(to.raw(), from).remove(to.raw()) =~= p0.graph.links_v());
}

} // verus!
