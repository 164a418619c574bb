use libautark::engine::errors::EngineError;
use libautark::model::graph::NodeGraph;
use libautark::model::nodes::NodeKind;
use libautark::model::project::ProjectData;
use libautark::model::socket::Socket;
use libautark::model::DataKind;

fn chain() -> (NodeGraph, libautark::ids::NodeID, libautark::ids::NodeID) {
    let mut graph = NodeGraph::new();
    let utility_node_1 = graph.add_node(NodeKind::Utility);
    let utility_1_output = graph.outputs_of(utility_node_1)[0];
    let utility_node_2 = graph.add_node(NodeKind::Utility);
    let utility_2_input = graph.inputs_of(utility_node_2)[0];
    let utility_2_output = graph.outputs_of(utility_node_2)[0];
    let master_input = graph.inputs_of(graph.master_node_id)[0];
    graph.add_link(utility_1_output, utility_2_input).unwrap();
    graph.add_link(utility_2_output, master_input).unwrap();
    (graph, utility_node_1, utility_node_2)
}

#[test]
fn topo_sort_no_filter() {
    let (graph, utility_node_1, utility_node_2) = chain();
    let order = graph.topo_sort(None).unwrap();
    assert_eq!(order, vec![utility_node_1, utility_node_2, graph.master_node_id]);
}

#[test]
fn topo_sort_with_filter() {
    let (graph, _utility_node_1, utility_node_2) = chain();
    let order = graph.topo_sort(Some(&[utility_node_2])).unwrap();
    assert_eq!(order, vec![utility_node_2, graph.master_node_id]);
}

#[test]
fn new_graph_holds_only_master() {
    let graph = NodeGraph::new();
    assert_eq!(graph.node_ids(), vec![graph.master_node_id]);
    assert_eq!(graph.inputs_of(graph.master_node_id).len(), 1);
    assert_eq!(graph.outputs_of(graph.master_node_id).len(), 1);
    assert_eq!(graph.topo_sort(None).unwrap(), vec![graph.master_node_id]);
}

#[test]
fn ancestors_include_feeders_and_target() {
    let mut graph = NodeGraph::new();
    let utility_node_1 = graph.add_node(NodeKind::Utility);
    let utility_1_output = graph.outputs_of(utility_node_1)[0];
    let utility_node_2 = graph.add_node(NodeKind::Utility);
    let utility_2_input = graph.inputs_of(utility_node_2)[0];
    graph.add_link(utility_1_output, utility_2_input).unwrap();
    let ancestors = graph.ancestors_of(&[utility_node_2]);
    assert!(ancestors.contains(&utility_node_1));
    assert!(ancestors.contains(&utility_node_2));
    assert!(!ancestors.contains(&graph.master_node_id));
    assert_eq!(ancestors.len(), 2);
}

#[test]
fn successors_include_fed_nodes_and_seed() {
    let mut graph = NodeGraph::new();
    let utility_node_1 = graph.add_node(NodeKind::Utility);
    let utility_1_output = graph.outputs_of(utility_node_1)[0];
    let utility_node_2 = graph.add_node(NodeKind::Utility);
    let utility_2_input = graph.inputs_of(utility_node_2)[0];
    graph.add_link(utility_1_output, utility_2_input).unwrap();
    let succs = graph.successors_of(&[utility_node_1]);
    assert!(succs.contains(&utility_node_1));
    assert!(succs.contains(&utility_node_2));
    assert_eq!(succs.len(), 2);
}

#[test]
fn add_link_refuses_a_cycle_and_drops_the_link() {
    let mut graph = NodeGraph::new();
    let a = graph.add_node(NodeKind::Utility);
    let b = graph.add_node(NodeKind::Utility);
    let a_out = graph.outputs_of(a)[0];
    let a_in = graph.inputs_of(a)[0];
    let b_out = graph.outputs_of(b)[0];
    let b_in = graph.inputs_of(b)[0];
    assert_eq!(graph.add_link(a_out, b_in), Ok(None));
    assert_eq!(graph.add_link(b_out, a_in), Err(EngineError::WouldCreateCycle));
    // The refused link is not kept, and the graph still sorts.
    let order = graph.topo_sort(None).unwrap();
    let pa = order.iter().position(|n| *n == a).unwrap();
    let pb = order.iter().position(|n| *n == b).unwrap();
    assert!(pa < pb);
    assert_eq!(graph.ancestors_of(&[a]), vec![a]);
}

#[test]
fn add_link_replaces_and_returns_the_previous_source() {
    let mut graph = NodeGraph::new();
    let a = graph.add_node(NodeKind::Utility);
    let b = graph.add_node(NodeKind::Utility);
    let master_in = graph.inputs_of(graph.master_node_id)[0];
    let a_out = graph.outputs_of(a)[0];
    let b_out = graph.outputs_of(b)[0];
    assert_eq!(graph.add_link(a_out, master_in), Ok(None));
    assert_eq!(graph.add_link(b_out, master_in), Ok(Some(a_out)));
    let feeders = graph.ancestors_of(&[graph.master_node_id]);
    assert!(feeders.contains(&b));
    assert!(!feeders.contains(&a));
}

#[test]
fn add_link_refusing_a_cycle_loses_the_earlier_link_into_the_socket() {
    let mut graph = NodeGraph::new();
    let a = graph.add_node(NodeKind::Utility);
    let b = graph.add_node(NodeKind::Utility);
    let c = graph.add_node(NodeKind::Utility);
    let a_out = graph.outputs_of(a)[0];
    let a_in = graph.inputs_of(a)[0];
    let b_out = graph.outputs_of(b)[0];
    let b_in = graph.inputs_of(b)[0];
    let c_out = graph.outputs_of(c)[0];
    assert_eq!(graph.add_link(c_out, a_in), Ok(None));
    assert_eq!(graph.add_link(a_out, b_in), Ok(None));
    assert_eq!(graph.add_link(b_out, a_in), Err(EngineError::WouldCreateCycle));
    // The link c -> a that fed `a_in` before is gone too.
    assert_eq!(graph.ancestors_of(&[a]), vec![a]);
}

#[test]
fn remove_link_only_removes_a_matching_link() {
    let mut graph = NodeGraph::new();
    let a = graph.add_node(NodeKind::Utility);
    let b = graph.add_node(NodeKind::Utility);
    let a_out = graph.outputs_of(a)[0];
    let b_out = graph.outputs_of(b)[0];
    let master_in = graph.inputs_of(graph.master_node_id)[0];
    graph.add_link(a_out, master_in).unwrap();
    graph.remove_link(b_out, master_in);
    assert!(graph.ancestors_of(&[graph.master_node_id]).contains(&a));
    graph.remove_link(a_out, master_in);
    assert_eq!(graph.ancestors_of(&[graph.master_node_id]), vec![graph.master_node_id]);
}

#[test]
fn sockets_are_found_by_name() {
    let mut graph = NodeGraph::new();
    let u = graph.add_node(NodeKind::Utility);
    assert_eq!(graph.input_socket_named(u, "audio in"), Some(graph.inputs_of(u)[0]));
    assert_eq!(graph.output_socket_named(u, "audio out"), Some(graph.outputs_of(u)[0]));
    assert_eq!(graph.input_socket_named(u, "audio out"), None);
    assert_eq!(graph.output_socket_named(graph.master_node_id, "out"), Some(graph.outputs_of(graph.master_node_id)[0]));
}

#[test]
fn node_shapes_follow_their_kind() {
    let mut graph = NodeGraph::new();
    let sum = graph.add_node(NodeKind::Sum);
    let dup = graph.add_node(NodeKind::Duplicate);
    assert_eq!(graph.inputs_of(sum).len(), 0);
    assert_eq!(graph.outputs_of(sum).len(), 1);
    assert_eq!(graph.inputs_of(dup).len(), 1);
    assert_eq!(graph.outputs_of(dup).len(), 0);
    assert_eq!(graph.input_socket_named(dup, "out"), Some(graph.inputs_of(dup)[0]));
    let k = NodeKind::Sum.spec_out();
    assert_eq!(k.len(), 1);
    assert_eq!(k[0].kind, DataKind::Audio);
    assert_eq!(k[0].name, "out");
}

#[test]
fn purge_removes_the_node_and_its_sockets() {
    let (mut graph, u1, u2) = chain();
    graph.purge(u2);
    assert!(!graph.node_ids().contains(&u2));
    assert!(graph.inputs_of(u2).is_empty());
    assert!(graph.outputs_of(u2).is_empty());
    assert_eq!(graph.node_ids().len(), 2);
    assert!(graph.node_ids().contains(&u1));
}

#[test]
fn incompatible_link_is_refused_even_with_a_dangling_link() {
    let mut p = ProjectData::new();
    let (t, reader) = p.add_track("gone".to_owned(), 1);
    let sum = p.graph.add_node(NodeKind::Sum);
    let audio_in = p.add_input_socket_to_node(sum, Socket::new(DataKind::Audio, "a".to_owned(), true)).unwrap();
    let midi_in = p.add_input_socket_to_node(sum, Socket::new(DataKind::Midi, "m".to_owned(), true)).unwrap();
    p.add_link(p.graph.outputs_of(reader)[0], audio_in).unwrap();
    assert_eq!(p.remove_track(t), Ok(()));
    assert!(!p.graph.check_links_closed());
    let u = p.graph.add_node(NodeKind::Utility);
    let u_out = p.graph.outputs_of(u)[0];
    assert_eq!(p.graph.output_kind(u_out), Some(DataKind::Audio));
    assert_eq!(
        p.add_link(u_out, midi_in),
        Err(EngineError::IncompatibleSockets { from: DataKind::Audio, to: DataKind::Midi })
    );
    assert_eq!(p.graph.source_of(midi_in), None);
}

#[test]
fn ancestors_and_successors_mirror_each_other() {
    let (g, u1, u2) = chain();
    let master = g.master_node_id;
    let nodes = [u1, u2, master];
    for &a in &nodes {
        for &b in &nodes {
            let up = g.ancestors_of(&[b]).contains(&a);
            let down = g.successors_of(&[a]).contains(&b);
            assert_eq!(up, down);
        }
    }
    assert!(g.ancestors_of(&[master]).contains(&u1));
    assert!(!g.successors_of(&[master]).contains(&u1));
}
