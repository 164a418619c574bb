use libautark::engine::commands::{Play, TransportCmd};
use libautark::engine::diff::{CanDiff, DiffProvider, VecDiff};
use libautark::engine::errors::EngineError;
use libautark::engine::tick::Tick;
use libautark::engine::transport::{Transport, TransportState};
use libautark::ids::AudioAssetID;
use libautark::model::asset::AssetData;
use libautark::model::clip::AudioClip;
use libautark::model::DataKind;
use libautark::model::graph::NodeGraph;
use libautark::model::nodes::{NodeKind, TrackReader};
use libautark::model::track::entries_in_order;
use std::collections::BTreeMap;

#[test]
fn data_kinds_connect_to_themselves_and_audio_feeds_cv() {
    assert!(DataKind::Audio.can_connect_to(DataKind::Audio));
    assert!(DataKind::Midi.can_connect_to(DataKind::Midi));
    assert!(DataKind::Cv.can_connect_to(DataKind::Cv));
    assert!(DataKind::Audio.can_connect_to(DataKind::Cv));
    assert!(!DataKind::Cv.can_connect_to(DataKind::Audio));
    assert!(!DataKind::Audio.can_connect_to(DataKind::Midi));
    assert!(!DataKind::Midi.can_connect_to(DataKind::Audio));
    assert!(!DataKind::Midi.can_connect_to(DataKind::Cv));
}

#[test]
fn transport_stores_state_codes() {
    assert_eq!(TransportState::Stopped.code(), 0);
    assert_eq!(TransportState::Playing.code(), 1);
    assert_eq!(TransportState::Recording.code(), 2);
    assert_eq!(TransportState::Paused.code(), 3);
    let t = Transport::new();
    assert!(!t.is_playing());
    t.play();
    assert!(t.is_playing());
    t.stop();
    assert!(!t.is_playing());
    TransportCmd(TransportState::Playing).execute(&t);
    assert!(t.is_playing());
    TransportCmd(TransportState::Paused).execute(&t);
    assert!(!t.is_playing());
    Play.execute(&t);
    assert!(t.is_playing());
    let other = Transport::new();
    t.replace(other);
    assert!(!t.is_playing());
}

#[test]
fn error_messages() {
    assert_eq!(EngineError::TrackNotFound.message(), "Track was not found");
    assert_eq!(EngineError::WouldCreateCycle.message(), "Attempting this would create a cycle");
    assert_eq!(
        EngineError::GraphTooLarge.message(),
        "graph exceeds preallocated real-time budget; edit ignored"
    );
    assert_eq!(
        EngineError::IncompatibleSockets { from: DataKind::Midi, to: DataKind::Audio }.message(),
        "Cannot create link between Midi and Audio"
    );
    let mut g = NodeGraph::new();
    let master = g.master_node_id;
    assert_eq!(EngineError::NodeNotFound(master).message(), "Node NodeID(1v1) was not found");
    let socket = g.inputs_of(master)[0];
    assert_eq!(EngineError::SocketNotFound(socket).message(), "Socket SocketID(1v1) was not found");
    let mut last = master;
    for _ in 0..11 {
        last = g.add_node(NodeKind::Utility);
    }
    assert_eq!(EngineError::NodeNotFound(last).message(), "Node NodeID(12v1) was not found");
}

#[test]
fn ticks_add_and_compare() {
    assert_eq!(Tick(3).add(Tick(4)), Tick(7));
    assert_eq!(Tick(3).min(Tick(4)), Tick(3));
    assert_eq!(Tick(3).max(Tick(4)), Tick(4));
    assert_eq!(Tick::from_frames(9), Tick(9));
}

#[test]
fn vec_diff_removes_then_adds() {
    let mut v: Vec<u32> = vec![1, 2, 3, 2];
    let d = VecDiff { added: vec![5, 6], removed: vec![2] };
    assert_eq!(d.additions(), &[5, 6]);
    assert_eq!(d.removals(), &[2]);
    v.apply_diff(&d);
    assert_eq!(v.elements(), &[1, 3, 5, 6]);
}

#[test]
fn asset_data_settles_when_ready_or_failed() {
    assert!(!AssetData::<u8>::Pending.is_settled());
    assert!(AssetData::Ready(1u8).is_settled());
    assert!(AssetData::<u8>::Failed.is_settled());
}

#[test]
fn render_pairs_cover_the_shared_frames() {
    // A clip at frames 10..14 played into the block 12..16 (2 output
    // channels, 8 samples) from a mono asset of 4 frames.
    let clip = AudioClip::new(Tick(10), Tick(4), AudioAssetID(0));
    let mut pairs = Vec::new();
    clip.render_pairs(1, 4, Tick(12), 8, 2, &mut pairs);
    // Frames 12 and 13: the source counts from the clip's start, the
    // destination from the block's start, both in steps of one channel.
    assert_eq!(pairs, vec![(2, 0), (2, 1), (3, 1), (3, 2)]);
}

#[test]
fn render_pairs_drop_out_of_range_samples() {
    let clip = AudioClip::new(Tick(0), Tick(10), AudioAssetID(0));
    // Stereo asset with only 3 samples; block of 2 stereo frames.
    let mut pairs = vec![(9, 9)];
    clip.render_pairs(2, 3, Tick(0), 4, 2, &mut pairs);
    assert_eq!(pairs, vec![(0, 0), (1, 1), (2, 2)]);
}

#[test]
fn track_reader_picks_the_sounding_clips() {
    let mut clips: BTreeMap<u64, (u64, u64)> = BTreeMap::new();
    clips.insert(12, (12, 3));
    clips.insert(0, (0, 10));
    clips.insert(20, (20, 1));
    clips.insert(5, (5, 2));
    let entries = entries_in_order(&clips);
    assert_eq!(entries, vec![(0, (0, 10)), (5, (5, 2)), (12, (12, 3)), (20, (20, 1))]);
    let mut out = Vec::new();
    TrackReader::active_clips(&entries, Tick(11), Tick(10), &mut out);
    assert_eq!(out, vec![12, 20]);
    TrackReader::active_clips(&entries, Tick(6), Tick(4), &mut out);
    assert_eq!(out, vec![5]);
    TrackReader::active_clips(&entries, Tick(3), Tick(1), &mut out);
    assert_eq!(out, vec![0]);
    TrackReader::active_clips(&entries, Tick(4), Tick(10), &mut out);
    assert_eq!(out, vec![0, 5, 12]);
    TrackReader::active_clips(&[], Tick(0), Tick(8), &mut out);
    assert!(out.is_empty());
}
