//! The project: its tracks, clips and flow graph, and the undo history of
//! its edits.
use vstd::prelude::*;
use crate::arena::{clip_slots, input_lists, slot_limit, track_slots, ClipSlots, TrackSlots};
use crate::engine::constants::{MAX_BUFFER_SLOTS, MAX_NODES};
use crate::engine::errors::EngineError;
use crate::engine::schedule::{
    build_steps, can_capture, first_slot, lemma_capture_slot, lemma_first_slot_any_order, lemma_slot_of_listed, slot_layout, slot_table, step_nodes,
    step_ok, CompiledSchedule,
};
use crate::engine::tick::Tick;
use crate::ids::{key_index, AudioAssetID, AudioClipID, AudioTrackID, InputSocketID, NodeID, OutputSocketID};
use crate::model::clip::AudioClip;
use crate::model::graph::{
    feeds_through, input_raws, keys_ok, node_added_to, lemma_no_cycle_sub, lemma_keys_ok_insert, lemma_keys_ok_remove, node_raws, output_raws, seeds_view, NodeGraph,
};
use crate::model::nodes::{input_shape, output_shape, NodeKind, TrackReader};
use crate::model::socket::{registers, Socket, SocketDirection, SocketMeta, SocketShape};
use crate::model::track::{entries_in_order, AudioTrack};
use crate::model::DataKind;

verus! {

broadcast use crate::ids::group_id_lemmas;

/// `link` names a node of `g` that reads track `t`.
pub open spec fn reads_track(g: NodeGraph, t: u64, link: Option<NodeID>) -> bool {
    &&& link is Some
    &&& g.nodes_v().contains_key(link->0.raw())
    &&& g.nodes_v()[link->0.raw()] matches NodeKind::TrackReader(r) && r.id.raw() == t
}

/// Project arrangement data: tracks, clips, and the flow graph.
pub struct ProjectData {
    /// Audio track storage.
    pub tracks: TrackSlots,
    /// Audio clip storage.
    pub clips: ClipSlots,
    /// The flow graph of this project.
    pub graph: NodeGraph,
}

impl ProjectData {
    /// The tracks, by the integer form of their identifiers.
    pub open spec fn tracks_v(&self) -> Map<u64, AudioTrack> {
        track_slots(self.tracks)
    }

    /// The clips, by the integer form of their identifiers.
    pub open spec fn clips_v(&self) -> Map<u64, AudioClip> {
        clip_slots(self.clips)
    }

    /// The invariant of a project: a well-formed graph whose sockets all
    /// belong to its nodes, well-formed keys, and every track linked to a
    /// node that reads it.
    pub open spec fn wf(&self) -> bool {
        &&& self.graph.wf()
        &&& self.graph.sockets_owned()
        &&& keys_ok(self.tracks_v())
        &&& keys_ok(self.clips_v())
        &&& forall|t: u64| #[trigger] self.tracks_v().contains_key(t) ==> reads_track(self.graph, t, self.tracks_v()[t].linked_node_id)
    }

    /// An empty project: no tracks, no clips, and a graph holding only the
    /// `Master` node.
    pub fn new() -> (r: Self)
        ensures
            r.wf(),
            r.graph.links_closed(),
            r.graph.is_acyclic(),
            r.tracks_v().dom().is_empty(),
            r.clips_v().dom().is_empty(),
            r.graph.links_v().dom().is_empty(),
            r.graph.nodes_v().dom() == set![r.graph.master_node_id.raw()],
            r.graph.nodes_v()[r.graph.master_node_id.raw()] is Master,
            r.graph.ins_of(r.graph.master_node_id.raw()).len() == 1,
            r.graph.outs_of(r.graph.master_node_id.raw()).len() == 1,
            r.graph.ins_v().dom() == input_raws(r.graph.ins_of(r.graph.master_node_id.raw())).to_set(),
            r.graph.outs_v().dom() == output_raws(r.graph.outs_of(r.graph.master_node_id.raw())).to_set(),
            registers(r.graph.ins_v()[r.graph.ins_of(r.graph.master_node_id.raw())[0].raw()], r.graph.master_node_id,
                SocketDirection::Input, input_shape(NodeKind::Master)[0]),
            registers(r.graph.outs_v()[r.graph.outs_of(r.graph.master_node_id.raw())[0].raw()], r.graph.master_node_id,
                SocketDirection::Output, output_shape(NodeKind::Master)[0]),
    {
        let graph = NodeGraph::new();
        let r = ProjectData { tracks: TrackSlots::new(), clips: ClipSlots::new(), graph };
        proof {
            assert(r.tracks_v().dom() =~= Set::empty());
            assert(r.clips_v().dom() =~= Set::empty());
            assert(r.tracks_v().len() == 0);
            assert(r.clips_v().len() == 0);
        }
        r
    }

    /// A copy of this project.
    pub fn duplicate(&self) -> (r: Self)
        ensures
            r.tracks_v().dom() == self.tracks_v().dom(),
            forall|t: u64| #[trigger] r.tracks_v().contains_key(t) ==> r.tracks_v()[t]@ == self.tracks_v()[t]@,
            r.clips_v() == self.clips_v(),
            r.graph.master_node_id == self.graph.master_node_id,
            r.graph.nodes_v() == self.graph.nodes_v(),
            r.graph.ins_v() == self.graph.ins_v(),
            r.graph.outs_v() == self.graph.outs_v(),
            r.graph.node_ins_v() == self.graph.node_ins_v(),
            r.graph.node_outs_v() == self.graph.node_outs_v(),
            r.graph.links_v() == self.graph.links_v(),
            self.wf() ==> r.wf(),
    {
        let r = ProjectData { tracks: self.tracks.duplicate(), clips: self.clips.duplicate(), graph: self.graph.duplicate() };
        proof {
            if self.wf() {
                assert forall|t: u64| #[trigger] r.tracks_v().contains_key(t) implies reads_track(
                    r.graph, t, r.tracks_v()[t].linked_node_id) by {
                    assert(r.tracks_v()[t]@.2 == self.tracks_v()[t]@.2);
                    assert(reads_track(self.graph, t, self.tracks_v()[t].linked_node_id));
                }
                assert(r.tracks_v().len() == self.tracks_v().len());
            }
        }
        r
    }

    /// The track stored under `id`, if any.
    pub fn track(&self, id: AudioTrackID) -> (r: Option<&AudioTrack>)
        ensures
            match r {
                Some(t) => self.tracks_v().contains_key(id.raw()) && *t == self.tracks_v()[id.raw()],
                None => !self.tracks_v().contains_key(id.raw()),
            },
    {
        self.tracks.get(id.to_raw())
    }

    /// The clip stored under `id`, if any.
    pub fn clip(&self, id: AudioClipID) -> (r: Option<AudioClip>)
        ensures
            r == self.clips_v().get(id.raw()),
    {
        match self.clips.get(id.to_raw()) {
            Some(c) => Some(*c),
            None => None,
        }
    }

    /// The clips of `track` with the ticks they start at on the track,
    /// ticks rising. Every clip the track holds must be stored.
    pub fn clips_of_track(&self, track: AudioTrackID) -> (r: Vec<(u64, AudioClip)>)
        requires
            self.tracks_v().contains_key(track.raw()),
            forall|k: u64| #[trigger] self.tracks_v()[track.raw()].clips@.contains_key(k)
                ==> self.clips_v().contains_key(self.tracks_v()[track.raw()].clips@[k].raw()),
        ensures
            ({
                let m = self.tracks_v()[track.raw()].clips@;
                &&& r@.len() == m.len()
                &&& forall|i: int| 0 <= i < r@.len() ==> m.contains_key(#[trigger] r@[i].0)
                    && r@[i].1 == self.clips_v()[m[r@[i].0].raw()]
                &&& forall|k: u64| #[trigger] m.contains_key(k) ==> exists|i: int| 0 <= i < r@.len() && r@[i].0 == k
                &&& forall|i: int, j: int| 0 <= i < j < r@.len() ==> r@[i].0 < r@[j].0
            }),
    {
        let tr = self.tracks.get(track.to_raw()).unwrap();
        let entries = entries_in_order(&tr.clips);
        let ghost m = tr.clips@;
        let mut r: Vec<(u64, AudioClip)> = Vec::new();
        let mut i: usize = 0;
        while i < entries.len()
            invariant
                m == self.tracks_v()[track.raw()].clips@,
                forall|k: u64| #[trigger] m.contains_key(k) ==> self.clips_v().contains_key(m[k].raw()),
                entries@.len() == m.len(),
                forall|a: int| 0 <= a < entries@.len() ==> m.contains_key(#[trigger] entries@[a].0) && m[entries@[a].0] == entries@[a].1,
                0 <= i <= entries.len(),
                r@.len() == i,
                forall|a: int| 0 <= a < i ==> (#[trigger] r@[a]).0 == entries@[a].0 && r@[a].1 == self.clips_v()[entries@[a].1.raw()],
            decreases entries.len() - i,
        {
            let (tick, id) = entries[i];
            proof {
                assert(m.contains_key(entries@[i as int].0));
            }
            let clip = *self.clips.get(id.to_raw()).unwrap();
            r.push((tick, clip));
            i = i + 1;
        }
        proof {
            assert forall|k: u64| #[trigger] m.contains_key(k) implies exists|a: int| 0 <= a < r@.len() && r@[a].0 == k by {
                let a = choose|a: int| 0 <= a < entries@.len() && entries@[a].0 == k;
                assert(r@[a].0 == k);
            }
            assert forall|a: int, b: int| 0 <= a < b < r@.len() implies r@[a].0 < r@[b].0 by {
                assert(entries@[a].0 < entries@[b].0);
            }
        }
        r
    }

    /// The number of tracks.
    pub fn track_count(&self) -> (r: usize)
        ensures
            r == self.tracks_v().len(),
    {
        self.tracks.len()
    }

    /// The number of clips.
    pub fn clip_count(&self) -> (r: usize)
        ensures
            r == self.clips_v().len(),
    {
        self.clips.len()
    }

    /// Removes the link from `from` into `to`, if there is one.
    pub fn remove_link(&mut self, from: OutputSocketID, to: InputSocketID)
        requires
            old(self).wf(),
        ensures
            final(self).wf(),
            link_removed(*old(self), *final(self), from, to),
    {
        let ghost g0 = self.graph;
        self.graph.remove_link(from, to);
        proof {
            if g0.is_acyclic() {
                g0.lemma_acyclic_fewer_links(g0.links_v(), self.graph.links_v());
            }
        }
    }

    /// Links `from_id` into `to_id`; see `NodeGraph::add_link`.
    pub fn add_link(&mut self, from_id: OutputSocketID, to_id: InputSocketID) -> (r: Result<Option<OutputSocketID>, EngineError>)
        requires
            old(self).wf(),
            old(self).graph.outs_v().contains_key(from_id.raw()),
            old(self).graph.ins_v().contains_key(to_id.raw()),
            crate::model::connects(old(self).graph.outs_v()[from_id.raw()].kind, old(self).graph.ins_v()[to_id.raw()].kind)
                ==> old(self).graph.links_closed(),
        ensures
            final(self).wf(),
            link_added(*old(self), *final(self), from_id, to_id, r),
    {
        self.graph.add_link(from_id, to_id)
    }

    /// The kind of input socket `endpoint`.
    pub fn socket_kind_of(&self, endpoint: InputSocketID) -> (r: Result<DataKind, EngineError>)
        ensures
            r == if self.graph.ins_v().contains_key(endpoint.raw()) {
                Ok::<DataKind, EngineError>(self.graph.ins_v()[endpoint.raw()].kind)
            } else {
                Err::<DataKind, EngineError>(EngineError::SocketNotFound(endpoint))
            },
    {
        match self.graph.input_sockets.get(endpoint.to_raw()) {
            Some(meta) => Ok(meta.kind),
            None => Err(EngineError::SocketNotFound(endpoint)),
        }
    }

    /// Compiles the graph into a schedule: the nodes in a topological order
    /// (all of them, or those downstream of the `filter` nodes), each with
    /// its buffer slots, and the first output slot of `capture_id` as the
    /// slot fed to the audio output. Slot 0 stays silent; each node's
    /// outputs take the next free slots, in order; an input reads the slot
    /// of the output linked into it, or 0. Fails when the nodes cannot be
    /// ordered, or when `capture_id` is not among them or has no output.
    pub fn compile_graph(&self, filter: Option<&[NodeID]>, capture_id: NodeID) -> (r: Result<CompiledSchedule, EngineError>)
        requires
            self.graph.wf(),
            self.graph.links_closed(),
            self.graph.sockets_owned(),
            filter matches Some(s) ==> forall|k: int| 0 <= k < s@.len() ==> self.graph.nodes_v().contains_key(#[trigger] s@[k].raw()),
        ensures
            ({
                let g = self.graph;
                let domain = g.sort_domain(seeds_view(filter));
                let sortable = exists|o: Seq<u64>| g.is_topo_order(domain, o);
                &&& !sortable <==> r == Err::<CompiledSchedule, EngineError>(EngineError::WouldCreateCycle)
                &&& sortable && !can_capture(g, domain, capture_id.raw())
                    <==> r == Err::<CompiledSchedule, EngineError>(EngineError::NodeNotFound(capture_id))
                &&& sortable && can_capture(g, domain, capture_id.raw()) ==> r is Ok
                &&& r matches Ok(s) ==> {
                    let order = step_nodes(s.steps@);
                    &&& g.is_topo_order(domain, order)
                    &&& forall|k: int| 0 <= k < order.len() ==> #[trigger] step_ok(g, order, k, s.steps@[k])
                    &&& s.buffer_count == first_slot(g, order, order.len() as int)
                    &&& can_capture(g, domain, capture_id.raw())
                    &&& s.capture_slot == slot_table(g, order)[g.outs_of(capture_id.raw())[0].raw()]
                }
            }),
    {
        broadcast use vstd::std_specs::hash::group_hash_axioms;
        let ghost g = self.graph;
        let ghost domain = g.sort_domain(seeds_view(filter));
        let order = match self.graph.topo_sort(filter) {
            Ok(o) => o,
            Err(e) => {
                return Err(e);
            },
        };
        let ghost ord = node_raws(order@);
        proof {
            g.lemma_sort_domain_nodes(seeds_view(filter));
            assert forall|k: int| 0 <= k < order@.len() implies g.nodes_v().contains_key(#[trigger] order@[k].raw()) by {
                assert(ord[k] == order@[k].raw());
                assert(ord.to_set().contains(ord[k]));
            }
            lemma_capture_slot(g, ord, capture_id.raw());
        }
        let (table, buffer_count) = slot_layout(&self.graph, &order);
        let steps = build_steps(&self.graph, &order, &table, buffer_count);
        let capture_slot = match self.graph.node_output_sockets.get(capture_id.to_raw()) {
            Some(outs) => {
                if outs.len() > 0 {
                    match table.get(&outs[0].to_raw()) {
                        Some(slot) => *slot,
                        None => {
                            return Err(EngineError::NodeNotFound(capture_id));
                        },
                    }
                } else {
                    return Err(EngineError::NodeNotFound(capture_id));
                }
            },
            None => {
                return Err(EngineError::NodeNotFound(capture_id));
            },
        };
        Ok(CompiledSchedule { steps, buffer_count, capture_slot })
    }

    /// Adds an empty track named `name`, read by a new `TrackReader` node
    /// with `channels` channels, and returns both identifiers.
    pub fn add_track(&mut self, name: String, channels: u16) -> (r: (AudioTrackID, NodeID))
        requires
            old(self).wf(),
            old(self).tracks_v().len() < slot_limit(),
            old(self).graph.nodes_v().len() < slot_limit(),
            old(self).graph.outs_v().len() < slot_limit(),
        ensures
            final(self).wf(),
            track_added(*old(self), *final(self), name@, channels, r),
    {
        let ghost tracks0 = self.tracks_v();
        let k = self.tracks.insert(AudioTrack::new(name));
        proof {
            lemma_keys_ok_insert(tracks0, k, self.tracks_v()[k]);
        }
        let track_id = AudioTrackID::from_raw(k);
        let reader = NodeKind::TrackReader(TrackReader::new(track_id, channels));
        let ghost g0 = self.graph;
        let node_id = self.graph.add_node(reader);
        let mut track = self.tracks.get(k).unwrap().duplicate();
        track.linked_node_id = Some(node_id);
        let ghost tracks1 = self.tracks_v();
        self.tracks.replace(k, track);
        proof {
            assert(self.graph.ins_v().dom() =~= g0.ins_v().dom());
            assert(self.graph.ins_v() =~= g0.ins_v());
            assert(self.tracks_v() =~= tracks1.insert(k, track));
            assert(self.tracks_v().dom() =~= tracks0.dom().insert(k));
            assert(self.tracks_v().len() == tracks1.len());
            assert forall|t: u64| #[trigger] self.tracks_v().contains_key(t) implies reads_track(
                self.graph, t, self.tracks_v()[t].linked_node_id) by {
                if t != k {
                    assert(tracks0.contains_key(t));
                    assert(reads_track(g0, t, tracks0[t].linked_node_id));
                }
            }
        }
        (track_id, node_id)
    }

    /// Adds a clip that plays `asset_id` for `length` ticks from `start`,
    /// and places it on `track` at `start`. The clip is stored even when
    /// the track does not exist; then the result is `TrackNotFound`.
    pub fn add_clip_to_track(&mut self, track: AudioTrackID, start: Tick, length: Tick, asset_id: AudioAssetID) -> (r: Result<AudioClipID, EngineError>)
        requires
            old(self).wf(),
            old(self).clips_v().len() < slot_limit(),
        ensures
            final(self).wf(),
            clip_added(*old(self), *final(self), track, start, length, asset_id, r),
    {
        let ghost clips0 = self.clips_v();
        let c = self.clips.insert(AudioClip::new(start, length, asset_id));
        proof {
            lemma_keys_ok_insert(clips0, c, self.clips_v()[c]);
        }
        let clip_id = AudioClipID::from_raw(c);
        let k = track.to_raw();
        let mut tr = match self.tracks.get(k) {
            Some(t) => t.duplicate(),
            None => {
                return Err(EngineError::TrackNotFound);
            },
        };
        tr.clips.insert(start.0, clip_id);
        let ghost tracks0 = self.tracks_v();
        self.tracks.replace(k, tr);
        proof {
            assert(self.tracks_v().dom() =~= tracks0.dom());
            assert(self.tracks_v().len() == tracks0.len());
            assert forall|t: u64| #[trigger] self.tracks_v().contains_key(t) implies reads_track(
                self.graph, t, self.tracks_v()[t].linked_node_id) by {
                assert(tracks0.contains_key(t));
                if t == k {
                    assert(self.tracks_v()[t]@.2 == tracks0[t]@.2);
                }
            }
        }
        Ok(clip_id)
    }

    /// Moves `clip` on `track` to `new_start`: the track drops every entry
    /// that holds the clip and then holds it at `new_start`; the clip, if
    /// stored, starts at `new_start`.
    pub fn move_clip(&mut self, track: AudioTrackID, clip: AudioClipID, new_start: Tick) -> (r: Result<(), EngineError>)
        requires
            old(self).wf(),
        ensures
            final(self).wf(),
            clip_moved(*old(self), *final(self), track, clip, new_start, r),
    {
        let k = track.to_raw();
        let mut tr = match self.tracks.get(k) {
            Some(t) => t.duplicate(),
            None => {
                return Err(EngineError::TrackNotFound);
            },
        };
        let ghost m0 = tr.clips@;
        let ghost tr0 = tr@;
        let entries = entries_in_order(&tr.clips);
        let mut i: usize = 0;
        while i < entries.len()
            invariant
                0 <= i <= entries.len(),
                tr@.0 == tr0.0,
                tr@.2 == tr0.2,
                entries@.len() == m0.len(),
                forall|j: int| 0 <= j < entries@.len() ==> m0.contains_key(#[trigger] entries@[j].0) && m0[entries@[j].0] == entries@[j].1,
                forall|x: u64| #[trigger] m0.contains_key(x) ==> exists|j: int| 0 <= j < entries@.len() && entries@[j].0 == x,
                forall|x: u64| #[trigger] tr.clips@.contains_key(x) <==> m0.contains_key(x)
                    && !(m0[x] == clip && exists|j: int| 0 <= j < i && entries@[j].0 == x),
                forall|x: u64| #[trigger] tr.clips@.contains_key(x) ==> tr.clips@[x] == m0[x],
            decreases entries.len() - i,
        {
            let (key, id) = entries[i];
            if id == clip {
                tr.clips.remove(&key);
            }
            i = i + 1;
        }
        proof {
            assert(tr.clips@ =~= without_clip(m0, clip));
        }
        tr.clips.insert(new_start.0, clip);
        let ghost tracks0 = self.tracks_v();
        self.tracks.replace(k, tr);
        let c = clip.to_raw();
        let moved = match self.clips.get(c) {
            Some(old_clip) => Some(AudioClip { start: new_start, length: old_clip.length, asset_id: old_clip.asset_id }),
            None => None,
        };
        match moved {
            Some(m) => {
                self.clips.replace(c, m);
            },
            None => {},
        }
        proof {
            assert(self.tracks_v().dom() =~= tracks0.dom());
            assert(self.tracks_v().len() == tracks0.len());
            assert forall|t: u64| #[trigger] self.tracks_v().contains_key(t) implies reads_track(
                self.graph, t, self.tracks_v()[t].linked_node_id) by {
                assert(tracks0.contains_key(t));
                if t == k {
                    assert(self.tracks_v()[t]@.2 == tracks0[t]@.2);
                }
            }
            if old(self).clips_v().contains_key(c) {
                assert(self.clips_v().dom() =~= old(self).clips_v().dom());
                assert(self.clips_v().len() == old(self).clips_v().len());
            }
        }
        Ok(())
    }

    /// Removes `track_id`, the node that reads it (with its sockets and the
    /// links into them), and the clips it holds.
    pub fn remove_track(&mut self, track_id: AudioTrackID) -> (r: Result<(), EngineError>)
        requires
            old(self).wf(),
            old(self).tracks_v().contains_key(track_id.raw()) ==> {
                let n = old(self).tracks_v()[track_id.raw()].linked_node_id->0.raw();
                forall|j: int| 0 <= j < old(self).graph.ins_of(n).len()
                    ==> old(self).graph.links_v().contains_key(#[trigger] old(self).graph.ins_of(n)[j].raw())
            },
        ensures
            final(self).wf(),
            track_removed(*old(self), *final(self), track_id, r),
    {
        let ghost tracks0 = self.tracks_v();
        let ghost g0 = self.graph;
        let track = match self.tracks.remove(track_id.to_raw()) {
            Some(t) => t,
            None => {
                proof {
                    assert(self.tracks_v() =~= tracks0);
                }
                return Err(EngineError::TrackNotFound);
            },
        };
        let linked = track.linked_node_id.unwrap();
        proof {
            lemma_keys_ok_remove(tracks0, track_id.raw());
        }
        self.graph.purge(linked);
        let ghost clips0 = self.clips_v();
        let ghost tracks1 = self.tracks_v();
        let ghost g1 = self.graph;
        let entries = entries_in_order(&track.clips);
        let mut i: usize = 0;
        while i < entries.len()
            invariant
                0 <= i <= entries.len(),
                entries@.len() == track.clips@.len(),
                forall|j: int| 0 <= j < entries@.len() ==> track.clips@.contains_key(#[trigger] entries@[j].0)
                    && track.clips@[entries@[j].0] == entries@[j].1,
                forall|x: u64| #[trigger] track.clips@.contains_key(x) ==> exists|j: int| 0 <= j < entries@.len() && entries@[j].0 == x,
                keys_ok(self.clips_v()),
                self.tracks_v() == tracks1,
                self.graph == g1,
                self.clips_v() == clips0.remove_keys(Set::new(|c: u64| exists|j: int| 0 <= j < i && entries@[j].1.raw() == c)),
            decreases entries.len() - i,
        {
            let ghost before = self.clips_v();
            let c = entries[i].1.to_raw();
            self.clips.remove(c);
            proof {
                lemma_keys_ok_remove(before, c);
                assert(self.clips_v() =~= clips0.remove_keys(Set::new(|x: u64| exists|j: int| 0 <= j < i + 1 && entries@[j].1.raw() == x))) by {
                    assert forall|x: u64| #[trigger] self.clips_v().contains_key(x) <==> clips0.remove_keys(Set::new(
                        |y: u64| exists|j: int| 0 <= j < i + 1 && entries@[j].1.raw() == y)).contains_key(x) by {
                        if x == c {
                            assert(entries@[i as int].1.raw() == x);
                        }
                    }
                }
            }
            i = i + 1;
        }
        proof {
            assert(Set::new(|c: u64| exists|j: int| 0 <= j < i && entries@[j].1.raw() == c) =~= clip_keys(track.clips@)) by {
                assert forall|c: u64| clip_keys(track.clips@).contains(c) implies exists|j: int| 0 <= j < i && entries@[j].1.raw() == c by {
                    let x = choose|x: u64| track.clips@.contains_key(x) && track.clips@[x].raw() == c;
                    let j = choose|j: int| 0 <= j < entries@.len() && entries@[j].0 == x;
                    assert(entries@[j].1.raw() == c);
                }
                assert forall|c: u64| (exists|j: int| 0 <= j < i && entries@[j].1.raw() == c) implies clip_keys(track.clips@).contains(c) by {
                    let j = choose|j: int| 0 <= j < i && entries@[j].1.raw() == c;
                    assert(track.clips@.contains_key(entries@[j].0));
                }
            }
            let n = linked.raw();
            assert forall|t: u64| #[trigger] self.tracks_v().contains_key(t) implies reads_track(
                self.graph, t, self.tracks_v()[t].linked_node_id) by {
                assert(tracks0.contains_key(t));
                assert(reads_track(g0, t, tracks0[t].linked_node_id));
                assert(tracks0[t].linked_node_id->0.raw() != n);
            }
        }
        Ok(())
    }

    /// Registers a new input socket of shape `socket` for `node_id` and
    /// appends it to the node's input sockets.
    pub fn add_input_socket_to_node(&mut self, node_id: NodeID, socket: Socket) -> (r: Result<InputSocketID, EngineError>)
        requires
            old(self).wf(),
            old(self).graph.nodes_v().contains_key(node_id.raw()),
            old(self).graph.ins_v().len() < slot_limit(),
        ensures
            final(self).wf(),
            input_added(*old(self), *final(self), node_id, socket.shape(), r),
    {
        let ghost g0 = self.graph;
        let meta = SocketMeta::register(node_id, SocketDirection::Input, socket);
        let s = self.graph.input_sockets.insert(meta);
        proof {
            lemma_keys_ok_insert(g0.ins_v(), s, meta);
        }
        let id = InputSocketID::from_raw(s);
        let k = node_id.to_raw();
        let mut list = copy_inputs(self.graph.node_input_sockets.get(k).unwrap());
        proof {
            assert(g0.node_ins_v().contains_key(k));
            assert(list@ == g0.ins_of(k));
            assert(!list@.contains(id)) by {
                if list@.contains(id) {
                    let j = choose|j: int| 0 <= j < list@.len() && list@[j] == id;
                    assert(g0.node_ins_v()[k][j] == id);
                }
            }
        }
        list.push(id);
        proof {
            assert forall|j: u64| input_lists(self.graph.node_input_sockets).contains_key(j) && key_index(j) == key_index(k)
                implies j == k by {
                assert(g0.node_ins_v().contains_key(j));
            }
        }
        self.graph.node_input_sockets.insert(k, list);
        proof {
            let g = self.graph;
            assert(g.node_ins_v() =~= g0.node_ins_v().insert(k, list@));
            assert(g.node_ins_v().dom() =~= g.nodes_v().dom());
            assert forall|n: u64, j: int| #![trigger g.node_ins_v()[n][j]]
                g.node_ins_v().contains_key(n) && 0 <= j < g.node_ins_v()[n].len() implies {
                    &&& g.ins_v().contains_key(g.node_ins_v()[n][j].raw())
                    &&& g.ins_v()[g.node_ins_v()[n][j].raw()].owner.raw() == n
                } by {
                if n == k && j == list@.len() - 1 {
                } else if n == k {
                    assert(g0.node_ins_v()[n][j] == g.node_ins_v()[n][j]);
                } else {
                    assert(g0.node_ins_v()[n][j] == g.node_ins_v()[n][j]);
                }
            }
            assert forall|n: u64| #[trigger] g.node_ins_v().contains_key(n) implies g.node_ins_v()[n].no_duplicates() by {
                if n != k {
                    assert(g0.node_ins_v().contains_key(n));
                }
            }
            assert forall|i: u64| #[trigger] g.links_v().contains_key(i) implies g.ins_v().contains_key(i) by {
                assert(g0.links_v().contains_key(i));
            }
            assert(g.wf());
            assert forall|x: u64| #[trigger] g.ins_v().contains_key(x) implies {
                &&& g.nodes_v().contains_key(g.ins_v()[x].owner.raw())
                &&& input_raws(g.ins_of(g.ins_v()[x].owner.raw())).contains(x)
            } by {
                if x == s {
                    assert(input_raws(g.ins_of(k))[list@.len() - 1] == s);
                } else {
                    let o = g0.ins_v()[x].owner.raw();
                    assert(g0.ins_v().contains_key(x));
                    let j = choose|j: int| 0 <= j < input_raws(g0.ins_of(o)).len() && input_raws(g0.ins_of(o))[j] == x;
                    if o == k {
                        assert(input_raws(g.ins_of(o))[j] == x);
                    }
                }
            }
            assert forall|x: u64| #[trigger] g.outs_v().contains_key(x) implies {
                &&& g.nodes_v().contains_key(g.outs_v()[x].owner.raw())
                &&& output_raws(g.outs_of(g.outs_v()[x].owner.raw())).contains(x)
            } by {
                assert(g0.outs_v().contains_key(x));
            }
            assert forall|t: u64| #[trigger] self.tracks_v().contains_key(t) implies reads_track(
                self.graph, t, self.tracks_v()[t].linked_node_id) by {
                assert(reads_track(g0, t, self.tracks_v()[t].linked_node_id));
            }
            if g0.links_closed() {
                assert forall|i: u64| #[trigger] g.links_v().contains_key(i) implies g.outs_v().contains_key(g.links_v()[i].raw()) by {
                    assert(g0.links_v().contains_key(i));
                }
            }
            if g0.is_acyclic() {
                assert forall|a: u64, b: u64| #[trigger] feeds_through(g.ins_v(), g.outs_v(), g.links_v(), a, b)
                    implies feeds_through(g0.ins_v(), g0.outs_v(), g0.links_v(), a, b) by {
                    let l = choose|l: u64| #[trigger] g.links_v().contains_key(l)
                        && g.outs_v()[g.links_v()[l].raw()].owner.raw() == a && g.ins_v()[l].owner.raw() == b;
                    assert(g0.ins_v().contains_key(l));
                }
                lemma_no_cycle_sub(g0.nodes_v().dom(), g0.ins_v(), g0.outs_v(), g0.links_v(),
                    g.nodes_v().dom(), g.ins_v(), g.outs_v(), g.links_v());
            }
        }
        Ok(id)
    }
}

/// The input socket identifiers of `s`, copied into a vector.
fn copy_inputs(s: &Vec<InputSocketID>) -> (r: Vec<InputSocketID>)
    ensures
        r@ == s@,
{
    let mut r: Vec<InputSocketID> = Vec::new();
    let mut i: usize = 0;
    while i < s.len()
        invariant
            0 <= i <= s.len(),
            r@ == s@.take(i as int),
        decreases s.len() - i,
    {
        r.push(s[i]);
        i = i + 1;
        assert(r@ =~= s@.take(i as int));
    }
    assert(s@.take(i as int) =~= s@);
    r
}

/// `m` without the entries that hold `clip`.
pub open spec fn without_clip(m: Map<u64, AudioClipID>, clip: AudioClipID) -> Map<u64, AudioClipID> {
    m.restrict(m.dom().filter(|k: u64| m[k] != clip))
}

/// The integer forms of the clips that `m` holds.
pub open spec fn clip_keys(m: Map<u64, AudioClipID>) -> Set<u64> {
    Set::new(|c: u64| exists|k: u64| m.contains_key(k) && m[k].raw() == c)
}

/// A project history as plain values: the current project, the undo stack
/// and the redo stack (tops last).
pub type HistoryState = (ProjectData, Seq<ProjectData>, Seq<ProjectData>);

/// The history after committing `next`: it becomes current, the previous
/// current goes on the undo stack, and the redo stack is cleared.
pub open spec fn commit_step(s: HistoryState, next: ProjectData) -> HistoryState {
    (next, s.1.push(s.0), Seq::empty())
}

/// The history after an undo: the top of the undo stack becomes current and
/// the previous current goes on the redo stack; nothing changes when there
/// is nothing to undo.
pub open spec fn undo_step(s: HistoryState) -> HistoryState {
    if s.1.len() > 0 {
        (s.1.last(), s.1.drop_last(), s.2.push(s.0))
    } else {
        s
    }
}

/// The history after a redo: the top of the redo stack becomes current and
/// the previous current goes on the undo stack; nothing changes when there
/// is nothing to redo.
pub open spec fn redo_step(s: HistoryState) -> HistoryState {
    if s.2.len() > 0 {
        (s.2.last(), s.1.push(s.0), s.2.drop_last())
    } else {
        s
    }
}

/// Undoing a commit brings back the project as it was before, leaves the
/// undo stack as it was, and offers the committed project for redo.
pub proof fn law_undo_after_commit(s: HistoryState, next: ProjectData)
    ensures
        undo_step(commit_step(s, next)) == (s.0, s.1, seq![next]),
{
    assert(s.1.push(s.0).drop_last() =~= s.1);
    assert(Seq::<ProjectData>::empty().push(next) =~= seq![next]);
}

/// A redo right after an undo restores the history.
pub proof fn law_redo_after_undo(s: HistoryState)
    requires
        s.1.len() > 0,
    ensures
        redo_step(undo_step(s)) == s,
{
    assert(s.1.drop_last().push(s.1.last()) =~= s.1);
    assert(s.2.push(s.0).drop_last() =~= s.2);
}

/// An undo right after a redo restores the history.
pub proof fn law_undo_after_redo(s: HistoryState)
    requires
        s.2.len() > 0,
    ensures
        undo_step(redo_step(s)) == s,
{
    assert(s.2.drop_last().push(s.2.last()) =~= s.2);
    assert(s.1.push(s.0).drop_last() =~= s.1);
}

/// Undo and redo move projects between the stacks and never lose one: the
/// number of projects held stays the same.
pub proof fn law_undo_redo_keep_count(s: HistoryState)
    ensures
        undo_step(s).1.len() + undo_step(s).2.len() == s.1.len() + s.2.len(),
        redo_step(s).1.len() + redo_step(s).2.len() == s.1.len() + s.2.len(),
{
}

/// The current project together with the projects to undo to and to redo.
///
/// Every edit goes through a commit, so that it can be undone.
pub struct ProjectHistory {
    current: ProjectData,
    undo_stack: Vec<ProjectData>,
    redo_stack: Vec<ProjectData>,
    /// The nodes that the last published update held.
    known_node_ids: Vec<NodeID>,
}

impl ProjectHistory {
    /// The history as plain values.
    pub closed spec fn state(&self) -> HistoryState {
        (self.current, self.undo_stack@, self.redo_stack@)
    }

    /// The current project.
    pub open spec fn present(&self) -> ProjectData {
        self.state().0
    }

    /// The nodes that the last published update held.
    pub closed spec fn known(&self) -> Seq<NodeID> {
        self.known_node_ids@
    }

    /// A history whose current project is `current`, with nothing to undo
    /// or redo, and no update published yet.
    pub fn new(current: ProjectData) -> (r: Self)
        ensures
            r.state() == (current, Seq::<ProjectData>::empty(), Seq::<ProjectData>::empty()),
            r.known() == Seq::<NodeID>::empty(),
    {
        ProjectHistory { current, undo_stack: Vec::new(), redo_stack: Vec::new(), known_node_ids: Vec::new() }
    }

    /// The current project.
    pub fn project(&self) -> (r: &ProjectData)
        ensures
            *r == self.present(),
    {
        &self.current
    }

    /// The current project, to change in place.
    pub fn project_mut(&mut self) -> (r: &mut ProjectData)
        ensures
            *r == old(self).present(),
            final(self).state() == (*final(r), old(self).state().1, old(self).state().2),
            final(self).known() == old(self).known(),
    {
        &mut self.current
    }

    /// Makes the top of the undo stack current, if there is one.
    pub fn undo(&mut self)
        ensures
            final(self).state() == undo_step(old(self).state()),
            final(self).known() == old(self).known(),
    {
        match self.undo_stack.pop() {
            Some(prev) => {
                let mut cur = prev;
                core::mem::swap(&mut self.current, &mut cur);
                self.redo_stack.push(cur);
            },
            None => {},
        }
    }

    /// Makes the top of the redo stack current, if there is one.
    pub fn redo(&mut self)
        ensures
            final(self).state() == redo_step(old(self).state()),
            final(self).known() == old(self).known(),
    {
        match self.redo_stack.pop() {
            Some(next) => {
                let mut cur = next;
                core::mem::swap(&mut self.current, &mut cur);
                self.undo_stack.push(cur);
            },
            None => {},
        }
    }

    /// Makes `next` current, keeping the previous project for undo and
    /// dropping what could be redone.
    pub fn commit(&mut self, next: ProjectData)
        ensures
            final(self).state() == commit_step(old(self).state(), next),
            final(self).known() == old(self).known(),
    {
        let mut previous = next;
        core::mem::swap(&mut self.current, &mut previous);
        self.undo_stack.push(previous);
        self.redo_stack.clear();
    }

    /// Keeps a copy of the current project for undo and drops what could be
    /// redone, so that the edits made next to the current project can be
    /// undone as one step.
    pub fn checkpoint(&mut self)
        ensures
            final(self).present() == old(self).present(),
            final(self).state().1.len() == old(self).state().1.len() + 1,
            final(self).state().1.drop_last() == old(self).state().1,
            same_project(final(self).state().1.last(), old(self).present()),
            old(self).present().wf() ==> final(self).state().1.last().wf(),
            final(self).state().2 == Seq::<ProjectData>::empty(),
            final(self).known() == old(self).known(),
    {
        let copy = self.current.duplicate();
        self.undo_stack.push(copy);
        self.redo_stack.clear();
        proof {
            assert(self.undo_stack@.drop_last() =~= old(self).undo_stack@);
        }
    }

    /// Compiles the current project's graph for publication, with the
    /// `Master` node as capture node, and records its nodes as the ones
    /// published. Refused, with nothing recorded, when compiling fails or
    /// when the graph exceeds the real-time budget (more than `MAX_NODES`
    /// nodes, or more than `MAX_BUFFER_SLOTS` slots). Gives back the
    /// schedule, the nodes published now but not last time (they need
    /// state), and the nodes published last time but not now (their state
    /// goes).
    pub fn publish_current(&mut self, filter: Option<&[NodeID]>) -> (r: Result<UpdatePlan, EngineError>)
        requires
            old(self).present().graph.wf(),
            old(self).present().graph.links_closed(),
            old(self).present().graph.sockets_owned(),
            filter matches Some(s) ==> forall|k: int| 0 <= k < s@.len()
                ==> old(self).present().graph.nodes_v().contains_key(#[trigger] s@[k].raw()),
        ensures
            final(self).state() == old(self).state(),
            ({
                let g = old(self).present().graph;
                let domain = g.sort_domain(seeds_view(filter));
                let sortable = exists|o: Seq<u64>| g.is_topo_order(domain, o);
                let master = g.master_node_id;
                &&& !sortable <==> r == Err::<UpdatePlan, EngineError>(EngineError::WouldCreateCycle)
                &&& sortable && !can_capture(g, domain, master.raw())
                    <==> r == Err::<UpdatePlan, EngineError>(EngineError::NodeNotFound(master))
                &&& r == Err::<UpdatePlan, EngineError>(EngineError::GraphTooLarge) <==> sortable
                    && can_capture(g, domain, master.raw())
                    && (g.nodes_v().len() > MAX_NODES
                        || forall|o: Seq<u64>| g.is_topo_order(domain, o) ==> first_slot(g, o, o.len() as int) > MAX_BUFFER_SLOTS)
                &&& sortable && can_capture(g, domain, master.raw()) && g.nodes_v().len() <= MAX_NODES
                    && (exists|o: Seq<u64>| g.is_topo_order(domain, o) && first_slot(g, o, o.len() as int) <= MAX_BUFFER_SLOTS)
                    ==> r is Ok
                &&& r is Err ==> final(self).known() == old(self).known()
                &&& r matches Ok(plan) ==> {
                    let order = step_nodes(plan.schedule.steps@);
                    let known = node_raws(old(self).known()).to_set();
                    &&& g.is_topo_order(domain, order)
                    &&& forall|k: int| 0 <= k < order.len() ==> #[trigger] step_ok(g, order, k, plan.schedule.steps@[k])
                    &&& plan.schedule.buffer_count == first_slot(g, order, order.len() as int)
                    &&& plan.schedule.buffer_count <= MAX_BUFFER_SLOTS
                    &&& g.nodes_v().len() <= MAX_NODES
                    &&& can_capture(g, domain, master.raw())
                    &&& plan.schedule.capture_slot == slot_table(g, order)[g.outs_of(master.raw())[0].raw()]
                    &&& node_raws(plan.state_additions@).no_duplicates()
                    &&& node_raws(plan.state_additions@).to_set() == g.nodes_v().dom().difference(known)
                    &&& node_raws(old(self).known()).no_duplicates() ==> node_raws(plan.state_removals@).no_duplicates()
                    &&& node_raws(plan.state_removals@).to_set() == known.difference(g.nodes_v().dom())
                    &&& node_raws(final(self).known()).no_duplicates()
                    &&& node_raws(final(self).known()).to_set() == g.nodes_v().dom()
                }
            }),
    {
        let ghost g = self.current.graph;
        let ghost domain = g.sort_domain(seeds_view(filter));
        let master = self.current.graph.master_node_id;
        let schedule = match self.current.compile_graph(filter, master) {
            Ok(s) => s,
            Err(e) => {
                return Err(e);
            },
        };
        let ghost order = step_nodes(schedule.steps@);
        proof {
            assert forall|o: Seq<u64>| g.is_topo_order(domain, o)
                implies first_slot(g, o, o.len() as int) == schedule.buffer_count by {
                lemma_first_slot_any_order(g, o, order);
            }
        }
        if schedule.buffer_count > MAX_BUFFER_SLOTS || self.current.graph.nodes.len() > MAX_NODES {
            return Err(EngineError::GraphTooLarge);
        }
        let new_ids = self.current.graph.node_ids();
        let state_additions = nodes_missing_from(&new_ids, &self.known_node_ids);
        let state_removals = nodes_missing_from(&self.known_node_ids, &new_ids);
        self.known_node_ids = new_ids;
        Ok(UpdatePlan { schedule, state_additions, state_removals })
    }
}

/// What publishing a project yields: the schedule to run, the nodes that
/// need new state, and the nodes whose state goes.
pub struct UpdatePlan {
    pub schedule: CompiledSchedule,
    pub state_additions: Vec<NodeID>,
    pub state_removals: Vec<NodeID>,
}

/// Two projects hold the same tracks (by view), clips and graph.
pub open spec fn same_project(a: ProjectData, b: ProjectData) -> bool {
    &&& a.tracks_v().dom() == b.tracks_v().dom()
    &&& forall|t: u64| #[trigger] a.tracks_v().contains_key(t) ==> a.tracks_v()[t]@ == b.tracks_v()[t]@
    &&& a.clips_v() == b.clips_v()
    &&& a.graph.master_node_id == b.graph.master_node_id
    &&& a.graph.nodes_v() == b.graph.nodes_v()
    &&& a.graph.ins_v() == b.graph.ins_v()
    &&& a.graph.outs_v() == b.graph.outs_v()
    &&& a.graph.node_ins_v() == b.graph.node_ins_v()
    &&& a.graph.node_outs_v() == b.graph.node_outs_v()
    &&& a.graph.links_v() == b.graph.links_v()
}

/// Whether `s` holds `x`.
fn holds_node(s: &Vec<NodeID>, x: NodeID) -> (r: bool)
    ensures
        r == node_raws(s@).contains(x.raw()),
{
    let mut i: usize = 0;
    while i < s.len()
        invariant
            0 <= i <= s.len(),
            forall|k: int| 0 <= k < i ==> s@[k].raw() != x.raw(),
        decreases s.len() - i,
    {
        if s[i] == x {
            proof {
                assert(node_raws(s@)[i as int] == x.raw());
            }
            return true;
        }
        i = i + 1;
    }
    proof {
        if node_raws(s@).contains(x.raw()) {
            let k = choose|k: int| 0 <= k < node_raws(s@).len() && node_raws(s@)[k] == x.raw();
            assert(s@[k].raw() == x.raw());
        }
    }
    false
}

/// The nodes of `from` that `other` does not hold, in the order of `from`.
fn nodes_missing_from(from: &Vec<NodeID>, other: &Vec<NodeID>) -> (r: Vec<NodeID>)
    ensures
        node_raws(r@).to_set() == node_raws(from@).to_set().difference(node_raws(other@).to_set()),
        node_raws(from@).no_duplicates() ==> node_raws(r@).no_duplicates(),
{
    let ghost os = node_raws(other@).to_set();
    let mut r: Vec<NodeID> = Vec::new();
    let mut i: usize = 0;
    proof {
        assert(node_raws(r@).to_set() =~= node_raws(from@.take(0)).to_set().difference(os));
    }
    while i < from.len()
        invariant
            0 <= i <= from.len(),
            os == node_raws(other@).to_set(),
            node_raws(r@).to_set() == node_raws(from@.take(i as int)).to_set().difference(os),
            node_raws(from@).no_duplicates() ==> node_raws(r@).no_duplicates(),
        decreases from.len() - i,
    {
        let x = from[i];
        let ghost before = r@;
        let ghost t0 = node_raws(from@.take(i as int));
        proof {
            assert(node_raws(from@.take(i + 1)) =~= t0.push(x.raw()));
            t0.lemma_push_to_set_commute(x.raw());
        }
        if !holds_node(other, x) {
            r.push(x);
            proof {
                assert(node_raws(r@) =~= node_raws(before).push(x.raw()));
                node_raws(before).lemma_push_to_set_commute(x.raw());
                assert(node_raws(r@).to_set() =~= t0.push(x.raw()).to_set().difference(os));
                if node_raws(from@).no_duplicates() {
                    assert(!t0.contains(x.raw())) by {
                        if t0.contains(x.raw()) {
                            let j = choose|j: int| 0 <= j < t0.len() && t0[j] == x.raw();
                            assert(node_raws(from@)[j] == node_raws(from@)[i as int]);
                        }
                    }
                    assert(!node_raws(before).to_set().contains(x.raw()));
                    assert(node_raws(r@).no_duplicates()) by {
                        assert forall|a: int, b: int| 0 <= a < node_raws(r@).len() && 0 <= b < node_raws(r@).len() && a != b
                            implies node_raws(r@)[a] != node_raws(r@)[b] by {
                            if a < before.len() && b < before.len() {
                                assert(node_raws(before)[a] != node_raws(before)[b]);
                            } else if a < before.len() {
                                assert(node_raws(before).to_set().contains(node_raws(before)[a]));
                            } else if b < before.len() {
                                assert(node_raws(before).to_set().contains(node_raws(before)[b]));
                            }
                        }
                    }
                }
            }
        } else {
            proof {
                assert(node_raws(r@).to_set() =~= t0.push(x.raw()).to_set().difference(os));
            }
        }
        i = i + 1;
    }
    proof {
        assert(from@.take(i as int) =~= from@);
    }
    r
}

/// `p1` is `p0` with the link from `from` into `to` taken out, if there was one.
pub open spec fn link_removed(p0: ProjectData, p1: ProjectData, from: OutputSocketID, to: InputSocketID) -> bool {
    &&& p1.graph.links_v() == if p0.graph.links_v().contains_key(to.raw())
        && p0.graph.links_v()[to.raw()] == from {
        p0.graph.links_v().remove(to.raw())
    } else {
        p0.graph.links_v()
    }
    &&& p1.graph.links_v().submap_of(p0.graph.links_v())
    &&& p0.graph.links_closed() ==> p1.graph.links_closed()
    &&& p0.graph.is_acyclic() ==> p1.graph.is_acyclic()
    &&& p1.tracks_v() == p0.tracks_v()
    &&& p1.clips_v() == p0.clips_v()
    &&& p1.graph.nodes_v() == p0.graph.nodes_v()
    &&& p1.graph.ins_v() == p0.graph.ins_v()
    &&& p1.graph.outs_v() == p0.graph.outs_v()
    &&& p1.graph.node_ins_v() == p0.graph.node_ins_v()
    &&& p1.graph.node_outs_v() == p0.graph.node_outs_v()
    &&& p1.graph.master_node_id == p0.graph.master_node_id
}

/// `p1` is `p0` after linking `from_id` into `to_id`, with result `r` (see `NodeGraph::add_link`).
pub open spec fn link_added(p0: ProjectData, p1: ProjectData, from_id: OutputSocketID, to_id: InputSocketID, r: Result<Option<OutputSocketID>, EngineError>) -> bool {
    &&& p0.graph.links_closed() ==> p1.graph.links_closed()
    &&& p1.tracks_v() == p0.tracks_v()
    &&& p1.clips_v() == p0.clips_v()
    &&& p1.graph.nodes_v() == p0.graph.nodes_v()
    &&& p1.graph.ins_v() == p0.graph.ins_v()
    &&& p1.graph.outs_v() == p0.graph.outs_v()
    &&& p1.graph.node_ins_v() == p0.graph.node_ins_v()
    &&& p1.graph.node_outs_v() == p0.graph.node_outs_v()
    &&& p1.graph.master_node_id == p0.graph.master_node_id
    &&& ({
        let from_kind = p0.graph.outs_v()[from_id.raw()].kind;
        let to_kind = p0.graph.ins_v()[to_id.raw()].kind;
        let linked = p0.graph.links_v().insert(to_id.raw(), from_id);
        &&& !crate::model::connects(from_kind, to_kind) ==> r == Err::<Option<OutputSocketID>, EngineError>(
                EngineError::IncompatibleSockets { from: from_kind, to: to_kind })
            && p1.graph.links_v() == p0.graph.links_v()
        &&& crate::model::connects(from_kind, to_kind) && p0.graph.acyclic_with(linked) ==>
            r == Ok::<Option<OutputSocketID>, EngineError>(p0.graph.links_v().get(to_id.raw()))
            && p1.graph.links_v() == linked
        &&& crate::model::connects(from_kind, to_kind) && !p0.graph.acyclic_with(linked) ==>
            r == Err::<Option<OutputSocketID>, EngineError>(EngineError::WouldCreateCycle)
            && p1.graph.links_v() == p0.graph.links_v().remove(to_id.raw())
    })
    &&& r is Ok ==> p1.graph.is_acyclic()
    &&& p0.graph.is_acyclic() ==> p1.graph.is_acyclic()
}

/// `p1` is `p0` with a new empty track named `name` and a new reader node with `channels` channels, whose identifiers are `r`.
pub open spec fn track_added(p0: ProjectData, p1: ProjectData, name: Seq<char>, channels: u16, r: (AudioTrackID, NodeID)) -> bool {
    &&& !p0.tracks_v().contains_key(r.0.raw())
    &&& p1.tracks_v().dom() == p0.tracks_v().dom().insert(r.0.raw())
    &&& p1.tracks_v()[r.0.raw()]@ == (name, Map::<u64, AudioClipID>::empty(), Some(r.1))
    &&& forall|t: u64| #[trigger] p0.tracks_v().contains_key(t) ==> p1.tracks_v()[t] == p0.tracks_v()[t]
    &&& p1.clips_v() == p0.clips_v()
    &&& !p0.graph.nodes_v().contains_key(r.1.raw())
    &&& p1.graph.nodes_v() == p0.graph.nodes_v().insert(
        r.1.raw(), NodeKind::TrackReader(TrackReader { id: r.0, channels }))
    &&& p1.graph.ins_of(r.1.raw()).len() == 0
    &&& p1.graph.outs_of(r.1.raw()).len() == 1
    &&& node_added_to(p0.graph, p1.graph, NodeKind::TrackReader(TrackReader { id: r.0, channels }), r.1)
    &&& p1.graph.ins_v() == p0.graph.ins_v()
    &&& p1.graph.links_v() == p0.graph.links_v()
    &&& p1.graph.master_node_id == p0.graph.master_node_id
    &&& p0.graph.links_closed() ==> p1.graph.links_closed()
    &&& p0.graph.is_acyclic() && p0.graph.links_closed() ==> p1.graph.is_acyclic()
}

/// `p1` is `p0` with a new clip, placed on `track` at `start` when the track exists; `r` is the outcome.
pub open spec fn clip_added(p0: ProjectData, p1: ProjectData, track: AudioTrackID, start: Tick, length: Tick, asset_id: AudioAssetID, r: Result<AudioClipID, EngineError>) -> bool {
    &&& exists|c: u64| {
        &&& !p0.clips_v().contains_key(c)
        &&& p1.clips_v() == p0.clips_v().insert(c, AudioClip { start, length, asset_id })
        &&& r matches Ok(id) ==> id.raw() == c
    }
    &&& r is Err <==> !p0.tracks_v().contains_key(track.raw())
    &&& r is Err ==> r == Err::<AudioClipID, EngineError>(EngineError::TrackNotFound)
        && p1.tracks_v() == p0.tracks_v()
    &&& r matches Ok(id) ==> {
        &&& p1.tracks_v().dom() == p0.tracks_v().dom()
        &&& p1.tracks_v()[track.raw()]@ == (
            p0.tracks_v()[track.raw()]@.0,
            p0.tracks_v()[track.raw()]@.1.insert(start.0, id),
            p0.tracks_v()[track.raw()]@.2)
        &&& forall|t: u64| #[trigger] p0.tracks_v().contains_key(t) && t != track.raw()
            ==> p1.tracks_v()[t] == p0.tracks_v()[t]
    }
    &&& p1.graph == p0.graph
}

/// `p1` is `p0` with `clip` moved on `track` to `new_start`; `r` is the outcome.
pub open spec fn clip_moved(p0: ProjectData, p1: ProjectData, track: AudioTrackID, clip: AudioClipID, new_start: Tick, r: Result<(), EngineError>) -> bool {
    &&& p1.graph == p0.graph
    &&& r is Err <==> !p0.tracks_v().contains_key(track.raw())
    &&& r is Err ==> r == Err::<(), EngineError>(EngineError::TrackNotFound)
        && p1.tracks_v() == p0.tracks_v()
        && p1.clips_v() == p0.clips_v()
    &&& r is Ok ==> {
        let before = p0.tracks_v()[track.raw()]@;
        &&& p1.tracks_v().dom() == p0.tracks_v().dom()
        &&& p1.tracks_v()[track.raw()]@ == (
            before.0, without_clip(before.1, clip).insert(new_start.0, clip), before.2)
        &&& forall|t: u64| #[trigger] p0.tracks_v().contains_key(t) && t != track.raw()
            ==> p1.tracks_v()[t] == p0.tracks_v()[t]
        &&& p1.clips_v() == if p0.clips_v().contains_key(clip.raw()) {
            p0.clips_v().insert(clip.raw(), AudioClip { start: new_start, ..p0.clips_v()[clip.raw()] })
        } else {
            p0.clips_v()
        }
    }
}

/// `p1` is `p0` without `track_id`, its reader node and its clips; `r` is the outcome.
pub open spec fn track_removed(p0: ProjectData, p1: ProjectData, track_id: AudioTrackID, r: Result<(), EngineError>) -> bool {
    &&& r is Err <==> !p0.tracks_v().contains_key(track_id.raw())
    &&& r is Err ==> r == Err::<(), EngineError>(EngineError::TrackNotFound)
        && p1.tracks_v() == p0.tracks_v()
        && p1.clips_v() == p0.clips_v()
        && p1.graph == p0.graph
    &&& r is Ok ==> {
        let tr = p0.tracks_v()[track_id.raw()];
        let n = tr.linked_node_id->0.raw();
        &&& p1.tracks_v() == p0.tracks_v().remove(track_id.raw())
        &&& p1.clips_v() == p0.clips_v().remove_keys(clip_keys(tr.clips@))
        &&& p1.graph.nodes_v() == p0.graph.nodes_v().remove(n)
        &&& p1.graph.ins_v() == p0.graph.ins_v().remove_keys(input_raws(p0.graph.ins_of(n)).to_set())
        &&& p1.graph.outs_v() == p0.graph.outs_v().remove_keys(output_raws(p0.graph.outs_of(n)).to_set())
        &&& p1.graph.links_v() == p0.graph.links_v().remove_keys(input_raws(p0.graph.ins_of(n)).to_set())
        &&& p1.graph.node_ins_v() == p0.graph.node_ins_v().remove(n)
        &&& p1.graph.node_outs_v() == p0.graph.node_outs_v().remove(n)
        &&& p1.graph.master_node_id == p0.graph.master_node_id
        &&& p0.graph.is_acyclic() && p1.graph.links_closed() ==> p1.graph.is_acyclic()
    }
}

/// `p1` is `p0` with a new input socket of shape `socket` appended to `node_id`; `r` is the outcome.
pub open spec fn input_added(p0: ProjectData, p1: ProjectData, node_id: NodeID, socket: SocketShape, r: Result<InputSocketID, EngineError>) -> bool {
    &&& r matches Ok(id) && {
        &&& !p0.graph.ins_v().contains_key(id.raw())
        &&& p1.graph.ins_v() == p0.graph.ins_v().insert(id.raw(), p1.graph.ins_v()[id.raw()])
        &&& registers(p1.graph.ins_v()[id.raw()], node_id, SocketDirection::Input, socket)
        &&& p1.graph.ins_of(node_id.raw()) == p0.graph.ins_of(node_id.raw()).push(id)
    }
    &&& p1.graph.nodes_v() == p0.graph.nodes_v()
    &&& p1.graph.outs_v() == p0.graph.outs_v()
    &&& p1.graph.node_outs_v() == p0.graph.node_outs_v()
    &&& forall|n: u64| n != node_id.raw() ==> #[trigger] p1.graph.ins_of(n) == p0.graph.ins_of(n)
    &&& p1.graph.links_v() == p0.graph.links_v()
    &&& p1.graph.master_node_id == p0.graph.master_node_id
    &&& p1.tracks_v() == p0.tracks_v()
    &&& p1.clips_v() == p0.clips_v()
    &&& p0.graph.links_closed() ==> p1.graph.links_closed()
    &&& p0.graph.is_acyclic() ==> p1.graph.is_acyclic()
}

} // verus!
