use libautark::engine::commands::{AddClip, AddLink, AddNode, AddNodeInput, AddTrack, GetMasterNodeId, InputSocketOf, MoveClip, OutputSocketOf, RemoveLink, RemoveTrack};
use libautark::engine::errors::EngineError;
use libautark::engine::tick::Tick;
use libautark::ids::AudioAssetID;
use libautark::model::nodes::NodeKind;
use libautark::model::project::{ProjectData, ProjectHistory};
use libautark::model::socket::Socket;
use libautark::model::{Audio, Cv, DataKind, Midi};

#[test]
fn compile_graph_lays_out_slots_in_order() {
    let mut p = ProjectData::new();
    let master = p.graph.master_node_id;
    let u1 = p.graph.add_node(NodeKind::Utility);
    let u2 = p.graph.add_node(NodeKind::Utility);
    let u1_out = p.graph.outputs_of(u1)[0];
    let u2_in = p.graph.inputs_of(u2)[0];
    let u2_out = p.graph.outputs_of(u2)[0];
    let m_in = p.graph.inputs_of(master)[0];
    p.add_link(u1_out, u2_in).unwrap();
    p.add_link(u2_out, m_in).unwrap();
    let s = p.compile_graph(None, master).unwrap();
    let ids: Vec<_> = s.steps.iter().map(|st| st.node_id).collect();
    assert_eq!(ids, vec![u1, u2, master]);
    // Slot 0 is silence; each node's single output takes the next slot.
    assert_eq!(s.steps[0].input_slots, vec![0]);
    assert_eq!(s.steps[0].output_slots, vec![1]);
    assert_eq!(s.steps[1].input_slots, vec![1]);
    assert_eq!(s.steps[1].output_slots, vec![2]);
    assert_eq!(s.steps[2].input_slots, vec![2]);
    assert_eq!(s.steps[2].output_slots, vec![3]);
    assert_eq!(s.buffer_count, 4);
    assert_eq!(s.capture_slot, 3);
}

#[test]
fn compile_graph_with_filter_reads_silence_from_outside() {
    let mut p = ProjectData::new();
    let master = p.graph.master_node_id;
    let u1 = p.graph.add_node(NodeKind::Utility);
    let u2 = p.graph.add_node(NodeKind::Utility);
    p.add_link(p.graph.outputs_of(u1)[0], p.graph.inputs_of(u2)[0]).unwrap();
    p.add_link(p.graph.outputs_of(u2)[0], p.graph.inputs_of(master)[0]).unwrap();
    let s = p.compile_graph(Some(&[u2]), master).unwrap();
    let ids: Vec<_> = s.steps.iter().map(|st| st.node_id).collect();
    assert_eq!(ids, vec![u2, master]);
    assert_eq!(s.steps[0].input_slots, vec![0]);
    assert_eq!(s.steps[0].output_slots, vec![1]);
    assert_eq!(s.steps[1].input_slots, vec![1]);
    assert_eq!(s.buffer_count, 3);
    assert_eq!(s.capture_slot, 2);
}

#[test]
fn compile_graph_fails_for_a_capture_node_outside_the_order() {
    let mut p = ProjectData::new();
    let master = p.graph.master_node_id;
    let u1 = p.graph.add_node(NodeKind::Utility);
    let r = p.compile_graph(Some(&[u1]), master);
    assert_eq!(r.err(), Some(EngineError::NodeNotFound(master)));
    let dup = p.graph.add_node(NodeKind::Duplicate);
    let r = p.compile_graph(None, dup);
    assert_eq!(r.err(), Some(EngineError::NodeNotFound(dup)));
}

#[test]
fn add_track_links_a_reader_node() {
    let mut p = ProjectData::new();
    let (t, n) = p.add_track("drums".to_owned(), 2);
    assert_eq!(p.graph.outputs_of(n).len(), 1);
    assert_eq!(p.graph.inputs_of(n).len(), 0);
    assert_eq!(p.graph.node_ids().len(), 2);
    let r = p.compile_graph(None, n).unwrap();
    assert_eq!(r.steps.len(), 2);
    assert_eq!(p.remove_track(t), Ok(()));
    assert_eq!(p.graph.node_ids(), vec![p.graph.master_node_id]);
    assert_eq!(p.remove_track(t), Err(EngineError::TrackNotFound));
}

#[test]
fn clips_are_added_moved_and_removed_with_their_track() {
    let mut p = ProjectData::new();
    let (t, _) = p.add_track("bass".to_owned(), 1);
    let c = p.add_clip_to_track(t, Tick(10), Tick(5), AudioAssetID(7)).unwrap();
    assert_eq!(p.move_clip(t, c, Tick(30)), Ok(()));
    assert_eq!(p.remove_track(t), Ok(()));
    assert_eq!(p.move_clip(t, c, Tick(40)), Err(EngineError::TrackNotFound));
    assert_eq!(p.add_clip_to_track(t, Tick(0), Tick(1), AudioAssetID(1)).err(), Some(EngineError::TrackNotFound));
}

#[test]
fn socket_kinds_and_added_inputs() {
    let mut p = ProjectData::new();
    let sum = p.graph.add_node(NodeKind::Sum);
    let midi_in = p.add_input_socket_to_node(sum, Socket::new(DataKind::Midi, "in".to_owned(), true)).unwrap();
    assert_eq!(p.graph.inputs_of(sum), &[midi_in]);
    assert_eq!(p.socket_kind_of(midi_in), Ok(DataKind::Midi));
    let u = p.graph.add_node(NodeKind::Utility);
    let u_out = p.graph.outputs_of(u)[0];
    assert_eq!(
        p.add_link(u_out, midi_in),
        Err(EngineError::IncompatibleSockets { from: DataKind::Audio, to: DataKind::Midi })
    );
    let cv_in = p.add_input_socket_to_node(sum, Socket::new(DataKind::Cv, "cv".to_owned(), true)).unwrap();
    assert_eq!(p.add_link(u_out, cv_in), Ok(None));
    assert_eq!(p.graph.inputs_of(sum), &[midi_in, cv_in]);
}

#[test]
fn undo_after_commit_restores_and_redo_reapplies() {
    let mut h = ProjectHistory::new(ProjectData::new());
    let before = h.project().graph.node_ids();
    let id = AddNode { node: NodeKind::Utility }.execute(&mut h);
    assert_eq!(h.project().graph.node_ids().len(), 2);
    h.undo();
    assert_eq!(h.project().graph.node_ids(), before);
    h.redo();
    assert!(h.project().graph.node_ids().contains(&id));
    h.undo();
    h.undo();
    assert_eq!(h.project().graph.node_ids(), before);
}

#[test]
fn a_new_edit_drops_the_redo_stack() {
    let mut h = ProjectHistory::new(ProjectData::new());
    let a = AddNode { node: NodeKind::Utility }.execute(&mut h);
    assert_eq!(h.project().graph.inputs_of(a).len(), 1);
    h.undo();
    let b = AddNode { node: NodeKind::Sum }.execute(&mut h);
    let after_edit = h.project().graph.node_ids();
    h.redo();
    // Nothing is left to redo: the Utility node does not come back.
    assert_eq!(h.project().graph.node_ids(), after_edit);
    assert_eq!(after_edit.len(), 2);
    assert!(after_edit.contains(&b));
    assert_eq!(h.project().graph.inputs_of(b).len(), 0);
}

#[test]
fn commands_edit_the_current_project() {
    let mut h = ProjectHistory::new(ProjectData::new());
    let master = GetMasterNodeId.execute(&h);
    let (t, reader) = AddTrack { name: "vox".to_owned(), kind: Audio, channels: 2 }.execute(&mut h);
    let out = OutputSocketOf(reader, 0).execute(&h);
    let m_in = InputSocketOf(master, 0).execute(&h);
    assert_eq!(AddLink { from: out, to: m_in }.execute(&mut h), Ok(None));
    let c = AddClip { track_id: t, start: Tick(0), end: Tick(100), asset_id: AudioAssetID(3) }.execute(&mut h).unwrap();
    assert_eq!(MoveClip { track: t, clip: c, new_start: Tick(50) }.execute(&mut h), Ok(()));
    RemoveLink { from: out, to: m_in }.execute(&mut h);
    assert_eq!(h.project().graph.ancestors_of(&[master]), vec![master]);
    assert_eq!(RemoveTrack(t).execute(&mut h), Ok(()));
    assert_eq!(h.project().graph.node_ids(), vec![master]);
}

#[test]
fn publish_reports_node_state_changes() {
    let mut h = ProjectHistory::new(ProjectData::new());
    let master = h.project().graph.master_node_id;
    let plan = h.publish_current(None).unwrap();
    assert_eq!(plan.state_additions, vec![master]);
    assert!(plan.state_removals.is_empty());
    assert_eq!(plan.schedule.capture_slot, 1);
    let u = AddNode { node: NodeKind::Utility }.execute(&mut h);
    let plan = h.publish_current(None).unwrap();
    assert_eq!(plan.state_additions, vec![u]);
    assert!(plan.state_removals.is_empty());
    h.undo();
    let plan = h.publish_current(None).unwrap();
    assert!(plan.state_additions.is_empty());
    assert_eq!(plan.state_removals, vec![u]);
}

#[test]
fn publish_refuses_a_graph_over_budget() {
    let mut h = ProjectHistory::new(ProjectData::new());
    for _ in 0..1024 {
        h.project_mut().graph.add_node(NodeKind::Sum);
    }
    assert_eq!(h.publish_current(None).err(), Some(EngineError::GraphTooLarge));
}

#[test]
fn clips_of_a_track_come_in_tick_order() {
    let mut p = ProjectData::new();
    let (t, _) = p.add_track("keys".to_owned(), 2);
    let late = p.add_clip_to_track(t, Tick(40), Tick(4), AudioAssetID(1)).unwrap();
    let early = p.add_clip_to_track(t, Tick(10), Tick(2), AudioAssetID(2)).unwrap();
    let clips = p.clips_of_track(t);
    assert_eq!(clips.len(), 2);
    assert_eq!(clips[0].0, 10);
    assert_eq!(clips[0].1.asset_id, AudioAssetID(2));
    assert_eq!(clips[1].0, 40);
    assert_eq!(clips[1].1.length, Tick(4));
    assert_eq!(p.clip(early).map(|c| c.start), Some(Tick(10)));
    assert_eq!(p.move_clip(t, late, Tick(5)), Ok(()));
    let clips = p.clips_of_track(t);
    assert_eq!(clips.iter().map(|c| c.0).collect::<Vec<_>>(), vec![5, 10]);
    assert_eq!(clips[0].1.start, Tick(5));
    assert_eq!(p.track(t).map(|tr| tr.name.clone()), Some("keys".to_owned()));
}

#[test]
fn edits_keep_the_graph_sortable() {
    let mut p = ProjectData::new();
    let master = p.graph.master_node_id;
    assert!(p.graph.topo_sort(None).is_ok());
    let (t1, n1) = p.add_track("one".to_owned(), 2);
    let (_t2, n2) = p.add_track("two".to_owned(), 2);
    assert!(p.graph.topo_sort(None).is_ok());
    let sum = p.graph.add_node(NodeKind::Utility);
    let extra = p.add_input_socket_to_node(sum, Socket::new(DataKind::Audio, "extra".to_owned(), true)).unwrap();
    p.add_link(p.graph.outputs_of(n1)[0], p.graph.inputs_of(sum)[0]).unwrap();
    p.add_link(p.graph.outputs_of(n2)[0], extra).unwrap();
    p.add_link(p.graph.outputs_of(sum)[0], p.graph.inputs_of(master)[0]).unwrap();
    let order = p.graph.topo_sort(None).unwrap();
    assert_eq!(order.len(), 4);
    assert_eq!(order[3], master);
    // A link back into the chain would close a cycle and is refused.
    let back = p.add_link(p.graph.outputs_of(master)[0], p.graph.inputs_of(sum)[0]);
    assert_eq!(back, Err(EngineError::WouldCreateCycle));
    assert!(p.graph.topo_sort(None).is_ok());
    let (t3, n3) = p.add_track("three".to_owned(), 1);
    assert_eq!(p.graph.topo_sort(None).unwrap().len(), 5);
    assert_eq!(p.remove_track(t3), Ok(()));
    let order = p.graph.topo_sort(None).unwrap();
    assert_eq!(order.len(), 4);
    assert!(!order.contains(&n3));
    assert!(order.contains(&n1));
    assert!(p.track(t1).is_some());
}

#[test]
fn add_node_input_adds_a_socket_of_the_marker_kind() {
    let mut h = ProjectHistory::new(ProjectData::new());
    let sum = AddNode { node: NodeKind::Sum }.execute(&mut h);
    let midi = AddNodeInput::<Midi>::to(sum).execute(&mut h).unwrap();
    let cv = AddNodeInput::<Cv>::to(sum).execute(&mut h).unwrap();
    assert_eq!(h.project().socket_kind_of(midi), Ok(DataKind::Midi));
    assert_eq!(h.project().socket_kind_of(cv), Ok(DataKind::Cv));
    assert_eq!(h.project().graph.inputs_of(sum), &[midi, cv]);
    assert_eq!(h.project().graph.input_socket_named(sum, "in"), Some(midi));
    h.undo();
    assert_eq!(h.project().graph.inputs_of(sum), &[midi]);
    assert_eq!(h.project().socket_kind_of(cv), Err(EngineError::SocketNotFound(cv)));
}

#[test]
fn adding_and_removing_tracks_leaves_other_sockets_alone() {
    let mut h = ProjectHistory::new(ProjectData::new());
    let sum = AddNode { node: NodeKind::Sum }.execute(&mut h);
    let a = AddNodeInput::<Audio>::to(sum).execute(&mut h).unwrap();
    let b = AddNodeInput::<Audio>::to(sum).execute(&mut h).unwrap();
    let u = AddNode { node: NodeKind::Utility }.execute(&mut h);
    let u_in = h.project().graph.inputs_of(u)[0];
    assert_eq!(h.project().socket_kind_of(u_in), Ok(DataKind::Audio));
    assert_eq!(h.project().graph.output_kind(h.project().graph.outputs_of(u)[0]), Some(DataKind::Audio));
    let (t, reader) = AddTrack { name: "keys".to_owned(), kind: Audio, channels: 2 }.execute(&mut h);
    let out = h.project().graph.outputs_of(reader)[0];
    assert_eq!(h.project().graph.output_kind(out), Some(DataKind::Audio));
    assert_eq!(h.project().graph.inputs_of(sum), &[a, b]);
    assert_eq!(h.project().graph.inputs_of(u), &[u_in]);
    assert_eq!(RemoveTrack(t).execute(&mut h), Ok(()));
    assert_eq!(h.project().graph.inputs_of(sum), &[a, b]);
    assert_eq!(h.project().graph.inputs_of(u), &[u_in]);
    assert_eq!(h.project().graph.output_kind(out), None);
}
