//! The flow graph: nodes, their sockets, and the links between sockets.
use vstd::prelude::*;
use crate::arena::{input_lists, link_map, node_slots, output_lists, slot_limit, socket_slots, InputLists, LinkMap, NodeSlots, OutputLists, SocketSlots};
use crate::ids::{canonical_key, key_index, null_index, InputSocketID, NodeID, OutputSocketID};
use crate::model::nodes::{input_shape, output_shape, NodeKind};
use crate::model::socket::{registers, Socket, SocketDirection, SocketMeta};
use crate::model::nodes::declares;
use crate::model::{connects, DataKind};
use crate::model::reach::{
    lemma_closed_holds_reached, lemma_reaches_converse, lemma_walk_bound, lemma_walk_done, lemma_walk_skip, lemma_walk_start, lemma_walk_visit, pending,
    reaches, walk_state,
};
use std::collections::{HashMap, HashSet};
use crate::model::topo::{
    lemma_occurrences_prefix, lemma_occurrences_step, lemma_pending_bound, lemma_pending_none, lemma_pending_split,
    lemma_pending_witness, blocked, lemma_positions_bound, lemma_push_contains, lemma_targets_in_range, occurrences, pending_into, targets_of,
};
use crate::engine::errors::EngineError;

verus! {

broadcast use crate::ids::group_id_lemmas;

/// Every key of `m` is in canonical integer form, and no two keys of `m`
/// share a slot index.
pub open spec fn keys_ok<V>(m: Map<u64, V>) -> bool {
    &&& m.dom().finite()
    &&& m.len() <= slot_limit()
    &&& forall|k: u64| #[trigger] m.contains_key(k) ==> canonical_key(k) && key_index(k) != null_index()
    &&& forall|a: u64, b: u64| #[trigger] m.contains_key(a) && #[trigger] m.contains_key(b)
        && key_index(a) == key_index(b) ==> a == b
}

/// The integer forms of a sequence of input socket identifiers.
pub open spec fn input_raws(s: Seq<InputSocketID>) -> Seq<u64> {
    s.map_values(|x: InputSocketID| x.raw())
}

/// The integer forms of a sequence of output socket identifiers.
pub open spec fn output_raws(s: Seq<OutputSocketID>) -> Seq<u64> {
    s.map_values(|x: OutputSocketID| x.raw())
}

/// The integer forms of a sequence of node identifiers.
pub open spec fn node_raws(s: Seq<NodeID>) -> Seq<u64> {
    s.map_values(|x: NodeID| x.raw())
}

/// With sockets `ins` and `outs` and links `links`, a node `a` feeds a node
/// `b`: some link runs from a socket owned by `a` into one owned by `b`.
pub open spec fn feeds_through(
    ins: Map<u64, SocketMeta>,
    outs: Map<u64, SocketMeta>,
    links: Map<u64, OutputSocketID>,
    a: u64,
    b: u64,
) -> bool {
    exists|i: u64| #[trigger] links.contains_key(i) && outs[links[i].raw()].owner.raw() == a && ins[i].owner.raw() == b
}

/// `o` lists each node of `nodes` once, every node before the nodes it
/// feeds through `links`.
pub open spec fn is_sorted_by(
    nodes: Set<u64>,
    ins: Map<u64, SocketMeta>,
    outs: Map<u64, SocketMeta>,
    links: Map<u64, OutputSocketID>,
    o: Seq<u64>,
) -> bool {
    &&& o.no_duplicates()
    &&& o.to_set() == nodes
    &&& forall|i: int, j: int| 0 <= i < o.len() && 0 <= j < o.len()
        && #[trigger] feeds_through(ins, outs, links, o[i], o[j]) ==> i < j
}

/// The nodes have an order in which each comes before the nodes it feeds:
/// the links close no cycle.
pub open spec fn no_cycle(
    nodes: Set<u64>,
    ins: Map<u64, SocketMeta>,
    outs: Map<u64, SocketMeta>,
    links: Map<u64, OutputSocketID>,
) -> bool {
    exists|o: Seq<u64>| is_sorted_by(nodes, ins, outs, links, o)
}

/// The elements of `o` that `s` holds, in the order of `o`.
pub open spec fn keep(o: Seq<u64>, s: Set<u64>) -> Seq<u64>
    decreases o.len(),
{
    if o.len() == 0 {
        Seq::empty()
    } else {
        let r = keep(o.drop_last(), s);
        if s.contains(o.last()) {
            r.push(o.last())
        } else {
            r
        }
    }
}

/// Pushing `x` onto `s` adds exactly `x` to what `s` holds.
proof fn lemma_push_holds(s: Seq<u64>, x: u64, y: u64)
    ensures
        s.push(x).contains(y) <==> s.contains(y) || y == x,
{
    if s.push(x).contains(y) && y != x {
        let k = choose|k: int| 0 <= k < s.push(x).len() && s.push(x)[k] == y;
        assert(s[k] == y);
    }
    if s.contains(y) {
        let k = choose|k: int| 0 <= k < s.len() && s[k] == y;
        assert(s.push(x)[k] == y);
    }
    if y == x {
        assert(s.push(x)[s.len() as int] == y);
    }
}

/// What `keep` holds, that it repeats nothing `o` does not repeat, and
/// where in `o` each of its elements stands: at rising positions.
pub proof fn lemma_keep(o: Seq<u64>, s: Set<u64>) -> (pos: Seq<int>)
    ensures
        forall|x: u64| #[trigger] keep(o, s).contains(x) <==> o.contains(x) && s.contains(x),
        o.no_duplicates() ==> keep(o, s).no_duplicates(),
        pos.len() == keep(o, s).len(),
        forall|i: int| 0 <= i < pos.len() ==> 0 <= #[trigger] pos[i] < o.len() && o[pos[i]] == keep(o, s)[i],
        forall|i: int, j: int| 0 <= i < j < pos.len() ==> #[trigger] pos[i] < #[trigger] pos[j],
    decreases o.len(),
{
    if o.len() > 0 {
        let d = o.drop_last();
        let r = keep(d, s);
        let p0 = lemma_keep(d, s);
        let x = o.last();
        assert(o =~= d.push(x));
        assert(keep(o, s) == if s.contains(x) { r.push(x) } else { r });
        assert forall|y: u64| #[trigger] keep(o, s).contains(y) <==> o.contains(y) && s.contains(y) by {
            lemma_push_holds(d, x, y);
            lemma_push_holds(r, x, y);
        }
        if o.no_duplicates() && s.contains(x) {
            assert(!r.contains(x)) by {
                if r.contains(x) {
                    let k = choose|k: int| 0 <= k < d.len() && d[k] == x;
                    assert(o[k] == o[o.len() - 1]);
                }
            }
            assert(keep(o, s).no_duplicates()) by {
                assert forall|i: int, j: int| 0 <= i < keep(o, s).len() && 0 <= j < keep(o, s).len() && i != j
                    implies keep(o, s)[i] != keep(o, s)[j] by {
                    if i < r.len() && j < r.len() {
                        assert(r[i] != r[j]);
                    } else if i < r.len() {
                        assert(r.contains(r[i]));
                    } else if j < r.len() {
                        assert(r.contains(r[j]));
                    }
                }
            }
        }
        if o.no_duplicates() && !s.contains(x) {
            assert(d.no_duplicates());
        }
        if s.contains(x) {
            let pos = p0.push(o.len() - 1);
            assert forall|i: int| 0 <= i < pos.len() implies 0 <= #[trigger] pos[i] < o.len() && o[pos[i]] == keep(o, s)[i] by {
                if i < p0.len() {
                    assert(pos[i] == p0[i]);
                    assert(o[p0[i]] == d[p0[i]]);
                }
            }
            assert forall|i: int, j: int| 0 <= i < j < pos.len() implies #[trigger] pos[i] < #[trigger] pos[j] by {
                if j < p0.len() {
                    assert(p0[i] < p0[j]);
                } else {
                    assert(pos[i] == p0[i]);
                }
            }
            pos
        } else {
            assert forall|i: int| 0 <= i < p0.len() implies 0 <= #[trigger] p0[i] < o.len() && o[p0[i]] == keep(o, s)[i] by {
                assert(o[p0[i]] == d[p0[i]]);
            }
            p0
        }
    } else {
        assert(keep(o, s) =~= Seq::<u64>::empty());
        Seq::empty()
    }
}

/// A graph whose nodes are among those of an acyclic graph, and whose
/// edges are among its edges, is acyclic.
pub proof fn lemma_no_cycle_sub(
    n0: Set<u64>,
    ins0: Map<u64, SocketMeta>,
    outs0: Map<u64, SocketMeta>,
    links0: Map<u64, OutputSocketID>,
    n1: Set<u64>,
    ins1: Map<u64, SocketMeta>,
    outs1: Map<u64, SocketMeta>,
    links1: Map<u64, OutputSocketID>,
)
    requires
        no_cycle(n0, ins0, outs0, links0),
        n1.subset_of(n0),
        forall|a: u64, b: u64| #[trigger] feeds_through(ins1, outs1, links1, a, b) ==> feeds_through(ins0, outs0, links0, a, b),
    ensures
        no_cycle(n1, ins1, outs1, links1),
{
    let o0 = choose|o: Seq<u64>| is_sorted_by(n0, ins0, outs0, links0, o);
    let o1 = keep(o0, n1);
    let pos = lemma_keep(o0, n1);
    assert(o1.to_set() =~= n1) by {
        assert forall|x: u64| n1.contains(x) implies o1.to_set().contains(x) by {
            assert(o0.to_set().contains(x));
            assert(o1.contains(x));
        }
    }
    assert forall|i: int, j: int| 0 <= i < o1.len() && 0 <= j < o1.len()
        && #[trigger] feeds_through(ins1, outs1, links1, o1[i], o1[j]) implies i < j by {
        assert(feeds_through(ins0, outs0, links0, o1[i], o1[j]));
        assert(o0[pos[i]] == o1[i] && o0[pos[j]] == o1[j]);
        assert(feeds_through(ins0, outs0, links0, o0[pos[i]], o0[pos[j]]));
        if j < i {
            assert(pos[j] < pos[i]);
        }
    }
    assert(is_sorted_by(n1, ins1, outs1, links1, o1));
}

/// `g1` is `g0` with node `node` added under the fresh identifier `id`:
/// its new sockets are registered with the shapes the node declares and
/// belong to it, and nothing else changes.
pub open spec fn node_added_to(g0: NodeGraph, g1: NodeGraph, node: NodeKind, id: NodeID) -> bool {
    &&& !g0.nodes_v().contains_key(id.raw())
    &&& g1.nodes_v() == g0.nodes_v().insert(id.raw(), node)
    &&& g1.node_ins_v() == g0.node_ins_v().insert(id.raw(), g1.ins_of(id.raw()))
    &&& g1.node_outs_v() == g0.node_outs_v().insert(id.raw(), g1.outs_of(id.raw()))
    &&& g1.ins_of(id.raw()).len() == input_shape(node).len()
    &&& g1.outs_of(id.raw()).len() == output_shape(node).len()
    &&& g1.ins_v().dom() == g0.ins_v().dom() + input_raws(g1.ins_of(id.raw())).to_set()
    &&& g1.outs_v().dom() == g0.outs_v().dom() + output_raws(g1.outs_of(id.raw())).to_set()
    &&& forall|s: u64| #[trigger] g0.ins_v().contains_key(s) ==> g1.ins_v()[s] == g0.ins_v()[s]
    &&& forall|s: u64| #[trigger] g0.outs_v().contains_key(s) ==> g1.outs_v()[s] == g0.outs_v()[s]
    &&& forall|j: int| 0 <= j < input_shape(node).len() ==> {
        &&& !g0.ins_v().contains_key(#[trigger] g1.ins_of(id.raw())[j].raw())
        &&& registers(g1.ins_v()[g1.ins_of(id.raw())[j].raw()], id, SocketDirection::Input, input_shape(node)[j])
    }
    &&& forall|j: int| 0 <= j < output_shape(node).len() ==> {
        &&& !g0.outs_v().contains_key(#[trigger] g1.outs_of(id.raw())[j].raw())
        &&& registers(g1.outs_v()[g1.outs_of(id.raw())[j].raw()], id, SocketDirection::Output, output_shape(node)[j])
    }
    &&& g1.links_v() == g0.links_v()
    &&& g1.master_node_id == g0.master_node_id
    &&& g0.links_closed() ==> g1.links_closed()
    &&& g0.sockets_owned() ==> g1.sockets_owned()
    &&& g0.is_acyclic() && g0.sockets_owned() && g0.links_closed() ==> g1.is_acyclic()
}

/// A graph representing the signal flow between nodes.
pub struct NodeGraph {
    /// The `Master` output node.
    pub master_node_id: NodeID,
    pub nodes: NodeSlots,
    pub input_sockets: SocketSlots,
    pub output_sockets: SocketSlots,
    pub node_input_sockets: InputLists,
    pub node_output_sockets: OutputLists,
    pub links: LinkMap,
}


/// Inserting a fresh key whose slot index no held key shares keeps the keys
/// well formed.
pub proof fn lemma_keys_ok_insert<V>(m: Map<u64, V>, k: u64, v: V)
    requires
        keys_ok(m),
        m.len() < slot_limit(),
        canonical_key(k),
        key_index(k) != null_index(),
        forall|j: u64| m.contains_key(j) ==> key_index(j) != key_index(k),
    ensures
        keys_ok(m.insert(k, v)),
{
    assert forall|a: u64, b: u64| #[trigger] m.insert(k, v).contains_key(a) && #[trigger] m.insert(k, v).contains_key(b)
        && key_index(a) == key_index(b) implies a == b by {
        if a != k && b != k {
        } else if a == k && b != k {
            assert(m.contains_key(b));
        } else if a != k && b == k {
            assert(m.contains_key(a));
        }
    }
}

/// Removing a key keeps the keys well formed.
pub proof fn lemma_keys_ok_remove<V>(m: Map<u64, V>, k: u64)
    requires
        keys_ok(m),
    ensures
        keys_ok(m.remove(k)),
{
    if m.contains_key(k) {
        assert(m.remove(k).len() == m.len() - 1);
    } else {
        assert(m.remove(k) =~= m);
    }
}

/// Registers `sockets` for `owner` in `slots`, one fresh key each.
fn register_sockets(slots: &mut SocketSlots, owner: NodeID, dir: SocketDirection, sockets: &Vec<Socket>) -> (r: Vec<u64>)
    requires
        keys_ok(socket_slots(*old(slots))),
        socket_slots(*old(slots)).len() + sockets.len() <= slot_limit(),
    ensures
        keys_ok(socket_slots(*final(slots))),
        r.len() == sockets.len(),
        r@.no_duplicates(),
        forall|j: int| 0 <= j < r.len() ==> !socket_slots(*old(slots)).contains_key(#[trigger] r@[j]),
        socket_slots(*final(slots)).dom() == socket_slots(*old(slots)).dom() + r@.to_set(),
        forall|s: u64| #[trigger] socket_slots(*old(slots)).contains_key(s) ==> socket_slots(*final(slots))[s] == socket_slots(*old(slots))[s],
        forall|j: int| 0 <= j < r.len() ==> registers(#[trigger] socket_slots(*final(slots))[r@[j]], owner, dir, sockets@[j].shape()),
        socket_slots(*final(slots)).len() == socket_slots(*old(slots)).len() + sockets.len(),
{
    let ghost m0 = socket_slots(*slots);
    let mut r: Vec<u64> = Vec::new();
    let mut i: usize = 0;
    while i < sockets.len()
        invariant
            0 <= i <= sockets.len(),
            r.len() == i,
            keys_ok(socket_slots(*slots)),
            m0.len() + sockets.len() <= slot_limit(),
            socket_slots(*slots).len() == m0.len() + i,
            r@.no_duplicates(),
            forall|j: int| 0 <= j < r.len() ==> !m0.contains_key(#[trigger] r@[j]),
            socket_slots(*slots).dom() == m0.dom() + r@.to_set(),
            forall|s: u64| #[trigger] m0.contains_key(s) ==> socket_slots(*slots)[s] == m0[s],
            forall|j: int| 0 <= j < r.len() ==> registers(#[trigger] socket_slots(*slots)[r@[j]], owner, dir, sockets@[j].shape()),
        decreases sockets.len() - i,
    {
        let sock = &sockets[i];
        let meta = SocketMeta::new(owner, dir, sock.name.clone(), sock.kind, sock.visible);
        let ghost before = socket_slots(*slots);
        let k = slots.insert(meta);
        proof {
            lemma_keys_ok_insert(before, k, meta);
            assert(!r@.contains(k));
            r@.lemma_push_to_set_commute(k);
        }
        r.push(k);
        i = i + 1;
    }
    r
}

/// The identifiers of registered input sockets, from their integer forms.
fn input_ids(raws: Vec<u64>) -> (r: Vec<InputSocketID>)
    requires
        forall|j: int| 0 <= j < raws.len() ==> canonical_key(#[trigger] raws@[j]),
    ensures
        input_raws(r@) == raws@,
{
    let mut r: Vec<InputSocketID> = Vec::new();
    let mut i: usize = 0;
    while i < raws.len()
        invariant
            0 <= i <= raws.len(),
            forall|j: int| 0 <= j < raws.len() ==> canonical_key(#[trigger] raws@[j]),
            input_raws(r@) == raws@.take(i as int),
        decreases raws.len() - i,
    {
        let ghost prev = r@;
        let x = InputSocketID::from_raw(raws[i]);
        r.push(x);
        assert(input_raws(r@) =~= input_raws(prev).push(x.raw()));
        assert(raws@.take(i + 1) =~= raws@.take(i as int).push(raws@[i as int]));
        i = i + 1;
    }
    assert(raws@.take(i as int) =~= raws@);
    r
}

/// The identifiers of registered output sockets, from their integer forms.
fn output_ids(raws: Vec<u64>) -> (r: Vec<OutputSocketID>)
    requires
        forall|j: int| 0 <= j < raws.len() ==> canonical_key(#[trigger] raws@[j]),
    ensures
        output_raws(r@) == raws@,
{
    let mut r: Vec<OutputSocketID> = Vec::new();
    let mut i: usize = 0;
    while i < raws.len()
        invariant
            0 <= i <= raws.len(),
            forall|j: int| 0 <= j < raws.len() ==> canonical_key(#[trigger] raws@[j]),
            output_raws(r@) == raws@.take(i as int),
        decreases raws.len() - i,
    {
        let ghost prev = r@;
        let x = OutputSocketID::from_raw(raws[i]);
        r.push(x);
        assert(output_raws(r@) =~= output_raws(prev).push(x.raw()));
        assert(raws@.take(i + 1) =~= raws@.take(i as int).push(raws@[i as int]));
        i = i + 1;
    }
    assert(raws@.take(i as int) =~= raws@);
    r
}

/// A sequence of identifiers has no duplicates when its integer forms have none.
proof fn lemma_input_raws_distinct(s: Seq<InputSocketID>)
    requires
        input_raws(s).no_duplicates(),
    ensures
        s.no_duplicates(),
{
    assert forall|i: int, j: int| 0 <= i < s.len() && 0 <= j < s.len() && i != j implies s[i] != s[j] by {
        assert(input_raws(s)[i] != input_raws(s)[j]);
    }
}

/// A sequence of identifiers has no duplicates when its integer forms have none.
proof fn lemma_output_raws_distinct(s: Seq<OutputSocketID>)
    requires
        output_raws(s).no_duplicates(),
    ensures
        s.no_duplicates(),
{
    assert forall|i: int, j: int| 0 <= i < s.len() && 0 <= j < s.len() && i != j implies s[i] != s[j] by {
        assert(output_raws(s)[i] != output_raws(s)[j]);
    }
}


/// Whether `s` holds `x`.
fn contains_output(s: &[OutputSocketID], x: OutputSocketID) -> (r: bool)
    ensures
        r == s@.contains(x),
{
    let mut i: usize = 0;
    while i < s.len()
        invariant
            0 <= i <= s.len(),
            forall|k: int| 0 <= k < i ==> s@[k] != x,
        decreases s.len() - i,
    {
        if s[i] == x {
            return true;
        }
        i = i + 1;
    }
    false
}

/// The identifiers of `targets`, copied into a vector.
fn copy_nodes(targets: &[NodeID]) -> (r: Vec<NodeID>)
    ensures
        r@ == targets@,
{
    let mut r: Vec<NodeID> = Vec::new();
    let mut t: usize = 0;
    while t < targets.len()
        invariant
            0 <= t <= targets.len(),
            r@ == targets@.take(t as int),
        decreases targets.len() - t,
    {
        r.push(targets[t]);
        t = t + 1;
        assert(r@ =~= targets@.take(t as int));
    }
    assert(targets@.take(t as int) =~= targets@);
    r
}

/// The view of an optional slice of seeds.
pub open spec fn seeds_view(filter: Option<&[NodeID]>) -> Option<Seq<NodeID>> {
    match filter {
        Some(s) => Some(s@),
        None => None,
    }
}

/// The positions of `s` as mathematical integers.
pub open spec fn as_ints(s: Seq<usize>) -> Seq<int> {
    s.map_values(|x: usize| x as int)
}

/// Maps the integer form of each node of `s` to its position.
fn index_map(s: &Vec<NodeID>) -> (m: HashMap<u64, usize>)
    requires
        node_raws(s@).no_duplicates(),
    ensures
        forall|k: int| 0 <= k < s.len() ==> m@.contains_key(#[trigger] s@[k].raw()) && m@[s@[k].raw()] == k,
        forall|x: u64| #[trigger] m@.contains_key(x) ==> exists|k: int| 0 <= k < s.len() && s@[k].raw() == x,
{
    broadcast use vstd::std_specs::hash::group_hash_axioms;
    let mut m: HashMap<u64, usize> = HashMap::new();
    let mut i: usize = 0;
    while i < s.len()
        invariant
            node_raws(s@).no_duplicates(),
            0 <= i <= s.len(),
            forall|k: int| 0 <= k < i ==> m@.contains_key(#[trigger] s@[k].raw()) && m@[s@[k].raw()] == k,
            forall|x: u64| #[trigger] m@.contains_key(x) ==> exists|k: int| 0 <= k < i && s@[k].raw() == x,
        decreases s.len() - i,
    {
        let x = s[i].to_raw();
        proof {
            assert forall|k: int| 0 <= k < i implies s@[k].raw() != x by {
                assert(node_raws(s@)[k] != node_raws(s@)[i as int]);
            }
        }
        m.insert(x, i);
        i = i + 1;
    }
    m
}

/// Kahn's algorithm on positions `0..n`: repeatedly takes a position with no
/// pending incoming edge. Returns the positions in the order taken; every
/// edge's source is taken before its target, and when not every position
/// is taken, each position left out has an incoming edge from another
/// position left out.
fn kahn(in_degree: Vec<usize>, successors: &Vec<Vec<usize>>, e: Ghost<Seq<(int, int)>>) -> (queue: Vec<usize>)
    requires
        in_degree.len() == successors.len(),
        forall|m: int| 0 <= m < e@.len() ==> 0 <= (#[trigger] e@[m]).0 < in_degree.len() && 0 <= e@[m].1 < in_degree.len(),
        forall|v: int| 0 <= v < in_degree.len() ==> #[trigger] in_degree@[v] == pending_into(e@, v, Set::empty()),
        forall|a: int| 0 <= a < in_degree.len() ==> as_ints(#[trigger] successors@[a]@) == targets_of(e@, a),
    ensures
        as_ints(queue@).no_duplicates(),
        queue.len() <= in_degree.len(),
        forall|k: int| 0 <= k < queue.len() ==> #[trigger] queue@[k] < in_degree.len(),
        forall|m: int, k: int| 0 <= m < e@.len() && 0 <= k < queue.len() && #[trigger] queue@[k] == (#[trigger] e@[m]).1
            ==> exists|p: int| 0 <= p < k && queue@[p] == e@[m].0,
        queue.len() < in_degree.len() ==> forall|v: int| 0 <= v < in_degree.len() && !as_ints(queue@).contains(v)
            ==> #[trigger] blocked(e@, as_ints(queue@), v),
{
    broadcast use vstd::seq_lib::group_seq_properties;
    let ghost e = e@;
    let n = in_degree.len();
    let mut in_degree = in_degree;
    let mut queue: Vec<usize> = Vec::new();
    let mut i: usize = 0;
    while i < n
        invariant
            n == in_degree.len(),
            0 <= i <= n,
            forall|v: int| 0 <= v < n ==> #[trigger] in_degree@[v] == pending_into(e, v, Set::empty()),
            as_ints(queue@).no_duplicates(),
            forall|k: int| 0 <= k < queue.len() ==> #[trigger] queue@[k] < i,
            forall|v: int| 0 <= v < i ==> (#[trigger] as_ints(queue@).contains(v) <==> in_degree@[v] == 0),
        decreases n - i,
    {
        let ghost q0 = queue@;
        proof {
            assert(!as_ints(q0).contains(i as int)) by {
                if as_ints(q0).contains(i as int) {
                    let k = choose|k: int| 0 <= k < as_ints(q0).len() && #[trigger] as_ints(q0)[k] == i as int;
                    assert(q0[k] < i);
                }
            }
        }
        if in_degree[i] == 0 {
            queue.push(i);
            proof {
                assert(as_ints(queue@) =~= as_ints(q0).push(i as int));
            }
        }
        proof {
            assert forall|v: int| 0 <= v < i + 1 implies (#[trigger] as_ints(queue@).contains(v) <==> in_degree@[v] == 0) by {
                if v < i {
                    if queue@.len() > q0.len() {
                        assert(as_ints(queue@) =~= as_ints(q0).push(i as int));
                        lemma_push_contains(as_ints(q0), i as int, v);
                    } else {
                        assert(queue@ == q0);
                    }
                } else {
                    if queue@.len() > q0.len() {
                        assert(as_ints(queue@)[q0.len() as int] == v);
                    }
                }
            }
        }
        i = i + 1;
    }
    proof {
        assert forall|m: int, k: int| 0 <= m < e.len() && 0 <= k < queue.len() && #[trigger] queue@[k] == (#[trigger] e[m]).1
            implies exists|p: int| 0 <= p < k && p < 0 && queue@[p] == e[m].0 by {
            assert(as_ints(queue@)[k] == queue@[k] as int);
            assert(as_ints(queue@).contains(queue@[k] as int));
            lemma_pending_none(e, queue@[k] as int, Set::empty());
        }
        assert(as_ints(queue@).take(0).to_set() =~= Set::empty());
    }
    let mut head: usize = 0;
    while head < queue.len()
        invariant
            n == in_degree.len(),
            n == successors.len(),
            forall|m: int| 0 <= m < e.len() ==> 0 <= (#[trigger] e[m]).0 < n && 0 <= e[m].1 < n,
            forall|a: int| 0 <= a < n ==> as_ints(#[trigger] successors@[a]@) == targets_of(e, a),
            0 <= head <= queue.len(),
            as_ints(queue@).no_duplicates(),
            forall|k: int| 0 <= k < queue.len() ==> #[trigger] queue@[k] < n,
            forall|v: int| 0 <= v < n ==> (#[trigger] as_ints(queue@).contains(v) <==> in_degree@[v] == 0),
            forall|v: int| 0 <= v < n ==> #[trigger] in_degree@[v] == pending_into(e, v, as_ints(queue@).take(head as int).to_set()),
            forall|m: int, k: int| 0 <= m < e.len() && 0 <= k < queue.len() && #[trigger] queue@[k] == (#[trigger] e[m]).1
                ==> exists|p: int| 0 <= p < k && p < head && queue@[p] == e[m].0,
        decreases (n - head) + (n - queue.len()),
    {
        proof {
            lemma_positions_bound(as_ints(queue@), n as int);
        }
        let v = queue[head];
        let ghost done0 = as_ints(queue@).take(head as int).to_set();
        let ghost q_before = queue@;
        head = head + 1;
        let ghost done1 = as_ints(queue@).take(head as int).to_set();
        proof {
            assert(as_ints(queue@).take(head as int) =~= as_ints(queue@).take(head - 1).push(v as int));
            as_ints(queue@).take(head - 1).lemma_push_to_set_commute(v as int);
            assert(done1 == done0.insert(v as int));
            assert(!done0.contains(v as int)) by {
                if done0.contains(v as int) {
                    let p = choose|p: int| 0 <= p < head - 1 && #[trigger] as_ints(queue@).take(head - 1)[p] == v as int;
                    assert(as_ints(queue@)[p] == as_ints(queue@)[head - 1]);
                }
            }
            assert forall|w: int| 0 <= w < n implies #[trigger] in_degree@[w] == pending_into(e, w, done1)
                + occurrences(targets_of(e, v as int), w) - occurrences(targets_of(e, v as int).take(0), w) by {
                lemma_pending_split(e, w, done0, v as int);
            }
            lemma_targets_in_range(e, v as int, n as int);
        }
        let succs = &successors[v];
        let ghost t = targets_of(e, v as int);
        let mut j: usize = 0;
        while j < succs.len()
            invariant
                n == in_degree.len(),
                forall|m: int| 0 <= m < e.len() ==> 0 <= (#[trigger] e[m]).0 < n && 0 <= e[m].1 < n,
                as_ints(succs@) == t,
                forall|k: int| 0 <= k < t.len() ==> 0 <= #[trigger] t[k] < n,
                0 <= j <= succs.len(),
                0 < head <= queue.len(),
                queue@.take(head as int) == q_before.take(head as int),
                queue@.len() >= q_before.len(),
                done1 == as_ints(queue@).take(head as int).to_set(),
                as_ints(queue@).no_duplicates(),
                forall|k: int| 0 <= k < queue.len() ==> #[trigger] queue@[k] < n,
                forall|w: int| 0 <= w < n ==> (#[trigger] as_ints(queue@).contains(w) <==> in_degree@[w] == 0),
                forall|w: int| 0 <= w < n ==> #[trigger] in_degree@[w] == pending_into(e, w, done1)
                    + occurrences(t, w) - occurrences(t.take(j as int), w),
                forall|w: int| 0 <= w < n ==> occurrences(t.take(j as int), w) <= occurrences(t, w),
                forall|m: int, k: int| 0 <= m < e.len() && 0 <= k < queue.len() && #[trigger] queue@[k] == (#[trigger] e[m]).1
                    ==> exists|p: int| 0 <= p < k && p < head && queue@[p] == e[m].0,
            decreases succs.len() - j,
        {
            let w = succs[j];
            proof {
                assert(t[j as int] == w as int);
                lemma_occurrences_step(t, w as int, j as int);
                lemma_occurrences_prefix(t, w as int, j + 1);
            }
            let d = in_degree[w];
            let ghost q0 = queue@;
            let ghost deg0 = in_degree@;
            proof {
                assert(!as_ints(q0).contains(w as int));
            }
            in_degree.set(w, d - 1);
            if d - 1 == 0 {
                queue.push(w);
                proof {
                    assert(as_ints(queue@) =~= as_ints(q0).push(w as int));
                    assert(!as_ints(q0).contains(w as int));
                    assert(queue@.take(head as int) =~= q0.take(head as int));
                    assert(as_ints(queue@).take(head as int) =~= as_ints(q0).take(head as int));
                    assert(pending_into(e, w as int, done1) == 0);
                    lemma_pending_none(e, w as int, done1);
                    assert forall|m: int, k: int| 0 <= m < e.len() && 0 <= k < queue.len() && #[trigger] queue@[k] == (#[trigger] e[m]).1
                        implies exists|p: int| 0 <= p < k && p < head && queue@[p] == e[m].0 by {
                        if k < q0.len() {
                            assert(q0[k] == queue@[k]);
                            let p = choose|p: int| 0 <= p < k && p < head && #[trigger] q0[p] == e[m].0;
                            assert(queue@[p] == q0[p]);
                        } else {
                            assert(done1.contains(e[m].0));
                            let p = choose|p: int| 0 <= p < head && #[trigger] as_ints(q0).take(head as int)[p] == e[m].0;
                            assert(queue@[p] == q0[p]);
                        }
                    }
                }
            }
            proof {
                assert forall|ww: int| 0 <= ww < n implies (#[trigger] as_ints(queue@).contains(ww) <==> in_degree@[ww] == 0) by {
                    if queue@.len() > q0.len() {
                        assert(as_ints(queue@) =~= as_ints(q0).push(w as int));
                        if ww != w as int {
                            lemma_push_contains(as_ints(q0), w as int, ww);
                        } else {
                            assert(as_ints(queue@)[q0.len() as int] == ww);
                        }
                    } else {
                        assert(queue@ == q0);
                    }
                }
                assert forall|ww: int| 0 <= ww < n implies occurrences(t.take(j + 1), ww) <= occurrences(t, ww) by {
                    lemma_occurrences_prefix(t, ww, j + 1);
                }
                assert forall|ww: int| 0 <= ww < n implies #[trigger] in_degree@[ww] == pending_into(e, ww, done1)
                    + occurrences(t, ww) - occurrences(t.take(j + 1), ww) by {
                    lemma_occurrences_step(t, ww, j as int);
                }
            }
            j = j + 1;
        }
        proof {
            assert(t.take(j as int) =~= t);
            assert(as_ints(queue@).take(head as int).to_set() == done1);
            lemma_positions_bound(as_ints(queue@), n as int);
        }
    }
    proof {
        lemma_positions_bound(as_ints(queue@), n as int);
        if queue.len() < n {
            assert(as_ints(queue@).take(head as int) =~= as_ints(queue@));
            assert forall|v: int| 0 <= v < n && !as_ints(queue@).contains(v)
                implies #[trigger] blocked(e, as_ints(queue@), v) by {
                assert(in_degree@[v] != 0);
                lemma_pending_witness(e, v, as_ints(queue@).to_set());
                let m = choose|m: int| 0 <= m < e.len() && (#[trigger] e[m]).1 == v && !as_ints(queue@).to_set().contains(e[m].0);
            }
        }
        assert forall|m: int, k: int| 0 <= m < e.len() && 0 <= k < queue.len() && #[trigger] queue@[k] == (#[trigger] e[m]).1
            implies exists|p: int| 0 <= p < k && queue@[p] == e[m].0 by {
            let p = choose|p: int| 0 <= p < k && p < head && #[trigger] queue@[p] == e[m].0;
        }
        assert forall|k: int| 0 <= k < queue.len() implies #[trigger] queue@[k] < in_degree.len() by {
        }
    }
    queue
}

/// The first position of `o` at or before `k` whose value satisfies `bad`.
proof fn lemma_first_index(o: Seq<u64>, bad: spec_fn(u64) -> bool, k: int) -> (p: int)
    requires
        0 <= k < o.len(),
        bad(o[k]),
    ensures
        0 <= p <= k,
        bad(o[p]),
        forall|i: int| 0 <= i < p ==> !bad(#[trigger] o[i]),
    decreases k,
{
    if exists|i: int| 0 <= i < k && bad(#[trigger] o[i]) {
        let i = choose|i: int| 0 <= i < k && bad(#[trigger] o[i]);
        lemma_first_index(o, bad, i)
    } else {
        k
    }
}

impl NodeGraph {
    /// The nodes, by key.
    pub open spec fn nodes_v(&self) -> Map<u64, NodeKind> {
        node_slots(self.nodes)
    }

    /// The input sockets, by key.
    pub open spec fn ins_v(&self) -> Map<u64, SocketMeta> {
        socket_slots(self.input_sockets)
    }

    /// The output sockets, by key.
    pub open spec fn outs_v(&self) -> Map<u64, SocketMeta> {
        socket_slots(self.output_sockets)
    }

    /// The input sockets of each node, in order.
    pub open spec fn node_ins_v(&self) -> Map<u64, Seq<InputSocketID>> {
        input_lists(self.node_input_sockets).map_values(|v: Vec<InputSocketID>| v@)
    }

    /// The output sockets of each node, in order.
    pub open spec fn node_outs_v(&self) -> Map<u64, Seq<OutputSocketID>> {
        output_lists(self.node_output_sockets).map_values(|v: Vec<OutputSocketID>| v@)
    }

    /// The links: for each linked input socket, the output socket feeding it.
    pub open spec fn links_v(&self) -> Map<u64, OutputSocketID> {
        link_map(self.links)
    }

    /// The input sockets of `n` (none if `n` has no list).
    pub open spec fn ins_of(&self, n: u64) -> Seq<InputSocketID> {
        if self.node_ins_v().contains_key(n) { self.node_ins_v()[n] } else { Seq::empty() }
    }

    /// The output sockets of `n` (none if `n` has no list).
    pub open spec fn outs_of(&self, n: u64) -> Seq<OutputSocketID> {
        if self.node_outs_v().contains_key(n) { self.node_outs_v()[n] } else { Seq::empty() }
    }

    /// The structural invariant of the graph: keys are well formed, every
    /// node has its two socket lists, each list holds distinct registered
    /// sockets that the node owns, and links hang off registered inputs.
    pub open spec fn wf(&self) -> bool {
        &&& keys_ok(self.nodes_v())
        &&& keys_ok(self.ins_v())
        &&& keys_ok(self.outs_v())
        &&& self.node_ins_v().dom() == self.nodes_v().dom()
        &&& self.node_outs_v().dom() == self.nodes_v().dom()
        &&& forall|n: u64, j: int| #![trigger self.node_ins_v()[n][j]]
            self.node_ins_v().contains_key(n) && 0 <= j < self.node_ins_v()[n].len() ==> {
                &&& self.ins_v().contains_key(self.node_ins_v()[n][j].raw())
                &&& self.ins_v()[self.node_ins_v()[n][j].raw()].owner.raw() == n
            }
        &&& forall|n: u64, j: int| #![trigger self.node_outs_v()[n][j]]
            self.node_outs_v().contains_key(n) && 0 <= j < self.node_outs_v()[n].len() ==> {
                &&& self.outs_v().contains_key(self.node_outs_v()[n][j].raw())
                &&& self.outs_v()[self.node_outs_v()[n][j].raw()].owner.raw() == n
            }
        &&& forall|n: u64| #[trigger] self.node_ins_v().contains_key(n) ==> self.node_ins_v()[n].no_duplicates()
        &&& forall|n: u64| #[trigger] self.node_outs_v().contains_key(n) ==> self.node_outs_v()[n].no_duplicates()
        &&& forall|i: u64| #[trigger] self.links_v().contains_key(i) ==> self.ins_v().contains_key(i)
    }

    /// Every link comes from a registered output socket.
    pub open spec fn links_closed(&self) -> bool {
        forall|i: u64| #[trigger] self.links_v().contains_key(i) ==> self.outs_v().contains_key(self.links_v()[i].raw())
    }

    /// Every registered socket belongs to a node of the graph and is listed
    /// among that node's sockets.
    pub open spec fn sockets_owned(&self) -> bool {
        &&& forall|s: u64| #[trigger] self.ins_v().contains_key(s) ==> {
            &&& self.nodes_v().contains_key(self.ins_v()[s].owner.raw())
            &&& input_raws(self.ins_of(self.ins_v()[s].owner.raw())).contains(s)
        }
        &&& forall|s: u64| #[trigger] self.outs_v().contains_key(s) ==> {
            &&& self.nodes_v().contains_key(self.outs_v()[s].owner.raw())
            &&& output_raws(self.outs_of(self.outs_v()[s].owner.raw())).contains(s)
        }
    }

    /// Adds `node` with fresh sockets for the shapes it declares, and
    /// returns its identifier.
    pub fn add_node(&mut self, node: NodeKind) -> (id: NodeID)
        requires
            old(self).wf(),
            old(self).has_room_for(node),
        ensures
            final(self).wf(),
            old(self).links_closed() ==> final(self).links_closed(),
            !old(self).nodes_v().contains_key(id.raw()),
            final(self).nodes_v() == old(self).nodes_v().insert(id.raw(), node),
            final(self).node_ins_v() == old(self).node_ins_v().insert(id.raw(), final(self).ins_of(id.raw())),
            final(self).node_outs_v() == old(self).node_outs_v().insert(id.raw(), final(self).outs_of(id.raw())),
            final(self).ins_of(id.raw()).len() == input_shape(node).len(),
            final(self).outs_of(id.raw()).len() == output_shape(node).len(),
            final(self).ins_v().dom() == old(self).ins_v().dom() + input_raws(final(self).ins_of(id.raw())).to_set(),
            final(self).outs_v().dom() == old(self).outs_v().dom() + output_raws(final(self).outs_of(id.raw())).to_set(),
            forall|s: u64| #[trigger] old(self).ins_v().contains_key(s) ==> final(self).ins_v()[s] == old(self).ins_v()[s],
            forall|s: u64| #[trigger] old(self).outs_v().contains_key(s) ==> final(self).outs_v()[s] == old(self).outs_v()[s],
            forall|j: int| 0 <= j < input_shape(node).len() ==> {
                &&& !old(self).ins_v().contains_key(#[trigger] final(self).ins_of(id.raw())[j].raw())
                &&& registers(final(self).ins_v()[final(self).ins_of(id.raw())[j].raw()], id, SocketDirection::Input, input_shape(node)[j])
            },
            forall|j: int| 0 <= j < output_shape(node).len() ==> {
                &&& !old(self).outs_v().contains_key(#[trigger] final(self).outs_of(id.raw())[j].raw())
                &&& registers(final(self).outs_v()[final(self).outs_of(id.raw())[j].raw()], id, SocketDirection::Output, output_shape(node)[j])
            },
            final(self).links_v() == old(self).links_v(),
            final(self).master_node_id == old(self).master_node_id,
            old(self).sockets_owned() ==> final(self).sockets_owned(),
            old(self).is_acyclic() && old(self).sockets_owned() && old(self).links_closed() ==> final(self).is_acyclic(),
    {
        let inputs = node.spec_in();
        let outputs = node.spec_out();
        let ghost g_nodes = self.nodes_v();
        let ghost g_ins = self.ins_v();
        let ghost g_outs = self.outs_v();
        let ghost g_node_ins = self.node_ins_v();
        let ghost g_node_outs = self.node_outs_v();
        let k = self.nodes.insert(node);
        proof {
            lemma_keys_ok_insert(g_nodes, k, node);
        }
        let node_id = NodeID::from_raw(k);
        let in_raw = register_sockets(&mut self.input_sockets, node_id, SocketDirection::Input, &inputs);
        let out_raw = register_sockets(&mut self.output_sockets, node_id, SocketDirection::Output, &outputs);
        proof {
            assert forall|j: int| 0 <= j < in_raw.len() implies canonical_key(#[trigger] in_raw@[j]) by {
                assert(in_raw@.to_set().contains(in_raw@[j]));
                assert(self.ins_v().contains_key(in_raw@[j]));
            }
            assert forall|j: int| 0 <= j < out_raw.len() implies canonical_key(#[trigger] out_raw@[j]) by {
                assert(out_raw@.to_set().contains(out_raw@[j]));
                assert(self.outs_v().contains_key(out_raw@[j]));
            }
        }
        let in_ids = input_ids(in_raw);
        let out_ids = output_ids(out_raw);
        proof {
            lemma_input_raws_distinct(in_ids@);
            lemma_output_raws_distinct(out_ids@);
        }
        self.node_input_sockets.insert(k, in_ids);
        self.node_output_sockets.insert(k, out_ids);
        proof {
            assert(self.node_ins_v() =~= g_node_ins.insert(k, in_ids@));
            assert(self.node_outs_v() =~= g_node_outs.insert(k, out_ids@));
            assert(self.ins_of(k) == in_ids@);
            assert(self.outs_of(k) == out_ids@);
            assert(keys_ok(self.nodes_v()));
            assert(keys_ok(self.ins_v()));
            assert(keys_ok(self.outs_v()));
            assert(self.node_ins_v().dom() =~= self.nodes_v().dom());
            assert(self.node_outs_v().dom() =~= self.nodes_v().dom());
            assert forall|n: u64, j: int| #![trigger self.node_ins_v()[n][j]]
                self.node_ins_v().contains_key(n) && 0 <= j < self.node_ins_v()[n].len() implies {
                    &&& self.ins_v().contains_key(self.node_ins_v()[n][j].raw())
                    &&& self.ins_v()[self.node_ins_v()[n][j].raw()].owner.raw() == n
                } by {
                if n == k {
                    assert(input_raws(in_ids@)[j] == in_raw@[j]);
                    assert(in_raw@.to_set().contains(in_raw@[j]));
                } else {
                    assert(g_node_ins[n][j] == self.node_ins_v()[n][j]);
                }
            }
            assert forall|n: u64, j: int| #![trigger self.node_outs_v()[n][j]]
                self.node_outs_v().contains_key(n) && 0 <= j < self.node_outs_v()[n].len() implies {
                    &&& self.outs_v().contains_key(self.node_outs_v()[n][j].raw())
                    &&& self.outs_v()[self.node_outs_v()[n][j].raw()].owner.raw() == n
                } by {
                if n == k {
                    assert(output_raws(out_ids@)[j] == out_raw@[j]);
                    assert(out_raw@.to_set().contains(out_raw@[j]));
                } else {
                    assert(g_node_outs[n][j] == self.node_outs_v()[n][j]);
                }
            }
            assert forall|n: u64| #[trigger] self.node_ins_v().contains_key(n) implies self.node_ins_v()[n].no_duplicates() by {
                if n != k {
                    assert(g_node_ins.contains_key(n));
                }
            }
            assert forall|n: u64| #[trigger] self.node_outs_v().contains_key(n) implies self.node_outs_v()[n].no_duplicates() by {
                if n != k {
                    assert(g_node_outs.contains_key(n));
                }
            }
            assert forall|i: u64| #[trigger] self.links_v().contains_key(i) implies self.ins_v().contains_key(i) by {
                assert(old(self).links_v().contains_key(i));
            }
            assert forall|j: int| 0 <= j < input_shape(node).len() implies {
                &&& !g_ins.contains_key(#[trigger] self.ins_of(k)[j].raw())
                &&& registers(self.ins_v()[self.ins_of(k)[j].raw()], node_id, SocketDirection::Input, input_shape(node)[j])
            } by {
                assert(input_raws(in_ids@)[j] == in_raw@[j]);
                assert(inputs@[j].shape() == input_shape(node)[j]);
            }
            assert forall|j: int| 0 <= j < output_shape(node).len() implies {
                &&& !g_outs.contains_key(#[trigger] self.outs_of(k)[j].raw())
                &&& registers(self.outs_v()[self.outs_of(k)[j].raw()], node_id, SocketDirection::Output, output_shape(node)[j])
            } by {
                assert(output_raws(out_ids@)[j] == out_raw@[j]);
                assert(outputs@[j].shape() == output_shape(node)[j]);
            }
            if old(self).links_closed() {
                assert forall|i: u64| #[trigger] self.links_v().contains_key(i) implies self.outs_v().contains_key(self.links_v()[i].raw()) by {
                    assert(old(self).links_v().contains_key(i));
                }
            }
            if old(self).sockets_owned() {
                assert forall|s: u64| #[trigger] self.ins_v().contains_key(s) implies {
                    &&& self.nodes_v().contains_key(self.ins_v()[s].owner.raw())
                    &&& input_raws(self.ins_of(self.ins_v()[s].owner.raw())).contains(s)
                } by {
                    if g_ins.contains_key(s) {
                        let o = g_ins[s].owner.raw();
                        assert(g_nodes.contains_key(o));
                        assert(o != k);
                        assert(self.ins_of(o) == old(self).ins_of(o));
                    } else {
                        let j = choose|j: int| 0 <= j < input_raws(self.ins_of(k)).len() && input_raws(self.ins_of(k))[j] == s;
                        assert(self.node_ins_v()[k][j].raw() == s);
                    }
                }
                assert forall|s: u64| #[trigger] self.outs_v().contains_key(s) implies {
                    &&& self.nodes_v().contains_key(self.outs_v()[s].owner.raw())
                    &&& output_raws(self.outs_of(self.outs_v()[s].owner.raw())).contains(s)
                } by {
                    if g_outs.contains_key(s) {
                        let o = g_outs[s].owner.raw();
                        assert(g_nodes.contains_key(o));
                        assert(o != k);
                        assert(self.outs_of(o) == old(self).outs_of(o));
                    } else {
                        let j = choose|j: int| 0 <= j < output_raws(self.outs_of(k)).len() && output_raws(self.outs_of(k))[j] == s;
                        assert(self.node_outs_v()[k][j].raw() == s);
                    }
                }
            }
            if old(self).is_acyclic() && old(self).sockets_owned() && old(self).links_closed() {
                assert(self.nodes_v().dom() =~= g_nodes.dom().insert(k));
                Self::lemma_acyclic_grown(*old(self), *self, k);
            }
        }
        node_id
    }

    /// A graph holding only a `Master` node.
    pub fn new() -> (r: Self)
        ensures
            r.wf(),
            r.links_closed(),
            r.sockets_owned(),
            r.links_v().dom().is_empty(),
            r.nodes_v().dom() == set![r.master_node_id.raw()],
            r.nodes_v()[r.master_node_id.raw()] is Master,
            r.ins_of(r.master_node_id.raw()).len() == 1,
            r.outs_of(r.master_node_id.raw()).len() == 1,
            r.ins_v().dom() == input_raws(r.ins_of(r.master_node_id.raw())).to_set(),
            r.outs_v().dom() == output_raws(r.outs_of(r.master_node_id.raw())).to_set(),
            r.is_acyclic(),
            registers(r.ins_v()[r.ins_of(r.master_node_id.raw())[0].raw()], r.master_node_id,
                SocketDirection::Input, input_shape(NodeKind::Master)[0]),
            registers(r.outs_v()[r.outs_of(r.master_node_id.raw())[0].raw()], r.master_node_id,
                SocketDirection::Output, output_shape(NodeKind::Master)[0]),
    {
        let mut me = NodeGraph {
            master_node_id: NodeID::from_raw(0x1_FFFF_FFFF),
            nodes: NodeSlots::new(),
            input_sockets: SocketSlots::new(),
            output_sockets: SocketSlots::new(),
            node_input_sockets: InputLists::new(),
            node_output_sockets: OutputLists::new(),
            links: LinkMap::new(),
        };
        proof {
            assert(me.nodes_v() =~= Map::empty());
            assert(me.ins_v() =~= Map::empty());
            assert(me.outs_v() =~= Map::empty());
            assert(me.node_ins_v() =~= Map::empty());
            assert(me.node_outs_v() =~= Map::empty());
            assert(me.links_v() =~= Map::empty());
            assert(me.sockets_owned());
            assert(Seq::<u64>::empty().to_set() =~= me.nodes_v().dom());
            assert(is_sorted_by(me.nodes_v().dom(), me.ins_v(), me.outs_v(), me.links_v(), Seq::empty()));
        }
        let id = me.add_node(NodeKind::Master);
        me.master_node_id = id;
        proof {
            assert(me.nodes_v().dom() =~= set![id.raw()]);
            assert(me.ins_v().dom() =~= input_raws(me.ins_of(id.raw())).to_set());
            assert(me.outs_v().dom() =~= output_raws(me.outs_of(id.raw())).to_set());
        }
        me
    }

    /// The input sockets of `node`, in order (none for an unknown node).
    pub fn inputs_of(&self, node: NodeID) -> (r: &[InputSocketID])
        ensures
            r@ == self.ins_of(node.raw()),
    {
        match self.node_input_sockets.get(node.to_raw()) {
            Some(v) => v.as_slice(),
            None => &[],
        }
    }

    /// The output sockets of `node`, in order (none for an unknown node).
    pub fn outputs_of(&self, node: NodeID) -> (r: &[OutputSocketID])
        ensures
            r@ == self.outs_of(node.raw()),
    {
        match self.node_output_sockets.get(node.to_raw()) {
            Some(v) => v.as_slice(),
            None => &[],
        }
    }

    /// The name of the `j`-th input socket of `n`.
    pub open spec fn input_name(&self, n: u64, j: int) -> Seq<char> {
        self.ins_v()[self.ins_of(n)[j].raw()].name@
    }

    /// The name of the `j`-th output socket of `n`.
    pub open spec fn output_name(&self, n: u64, j: int) -> Seq<char> {
        self.outs_v()[self.outs_of(n)[j].raw()].name@
    }

    /// The first input socket of `node` named `name`, if any.
    pub fn input_socket_named(&self, node: NodeID, name: &str) -> (r: Option<InputSocketID>)
        requires
            self.wf(),
        ensures
            match r {
                Some(id) => exists|j: int| 0 <= j < self.ins_of(node.raw()).len()
                    && self.ins_of(node.raw())[j] == id
                    && #[trigger] self.input_name(node.raw(), j) == name@
                    && forall|i: int| 0 <= i < j ==> self.input_name(node.raw(), i) != name@,
                None => forall|j: int| 0 <= j < self.ins_of(node.raw()).len()
                    ==> #[trigger] self.input_name(node.raw(), j) != name@,
            },
    {
        let ins = self.inputs_of(node);
        let target = name.to_owned();
        let mut i: usize = 0;
        while i < ins.len()
            invariant
                self.wf(),
                ins@ == self.ins_of(node.raw()),
                target@ == name@,
                0 <= i <= ins.len(),
                forall|k: int| 0 <= k < i ==> self.input_name(node.raw(), k) != name@,
            decreases ins.len() - i,
        {
            let id = ins[i];
            proof {
                assert(self.node_ins_v()[node.raw()][i as int] == id);
            }
            match self.input_sockets.get(id.to_raw()) {
                Some(meta) => {
                    if meta.name == target {
                        proof {
                            assert(self.input_name(node.raw(), i as int) == name@);
                        }
                        return Some(id);
                    }
                },
                None => {},
            }
            i = i + 1;
        }
        None
    }

    /// The first output socket of `node` named `name`, if any.
    pub fn output_socket_named(&self, node: NodeID, name: &str) -> (r: Option<OutputSocketID>)
        requires
            self.wf(),
        ensures
            match r {
                Some(id) => exists|j: int| 0 <= j < self.outs_of(node.raw()).len()
                    && self.outs_of(node.raw())[j] == id
                    && #[trigger] self.output_name(node.raw(), j) == name@
                    && forall|i: int| 0 <= i < j ==> self.output_name(node.raw(), i) != name@,
                None => forall|j: int| 0 <= j < self.outs_of(node.raw()).len()
                    ==> #[trigger] self.output_name(node.raw(), j) != name@,
            },
    {
        let outs = self.outputs_of(node);
        let target = name.to_owned();
        let mut i: usize = 0;
        while i < outs.len()
            invariant
                self.wf(),
                outs@ == self.outs_of(node.raw()),
                target@ == name@,
                0 <= i <= outs.len(),
                forall|k: int| 0 <= k < i ==> self.output_name(node.raw(), k) != name@,
            decreases outs.len() - i,
        {
            let id = outs[i];
            proof {
                assert(self.node_outs_v()[node.raw()][i as int] == id);
            }
            match self.output_sockets.get(id.to_raw()) {
                Some(meta) => {
                    if meta.name == target {
                        proof {
                            assert(self.output_name(node.raw(), i as int) == name@);
                        }
                        return Some(id);
                    }
                },
                None => {},
            }
            i = i + 1;
        }
        None
    }

    /// Removes the link from `from` into `to`, if there is one.
    pub fn remove_link(&mut self, from: OutputSocketID, to: InputSocketID)
        ensures
            final(self).links_v() == if old(self).links_v().contains_key(to.raw()) && old(self).links_v()[to.raw()] == from {
                old(self).links_v().remove(to.raw())
            } else {
                old(self).links_v()
            },
            final(self).nodes_v() == old(self).nodes_v(),
            final(self).ins_v() == old(self).ins_v(),
            final(self).outs_v() == old(self).outs_v(),
            final(self).node_ins_v() == old(self).node_ins_v(),
            final(self).node_outs_v() == old(self).node_outs_v(),
            final(self).master_node_id == old(self).master_node_id,
            old(self).wf() ==> final(self).wf(),
            old(self).links_closed() ==> final(self).links_closed(),
    {
        let key = to.to_raw();
        let linked = match self.links.get(key) {
            Some(src) => *src == from,
            None => false,
        };
        if linked {
            self.links.remove(key);
        }
        proof {
            assert forall|i: u64| #[trigger] self.links_v().contains_key(i) implies old(self).links_v().contains_key(i)
                && self.links_v()[i] == old(self).links_v()[i] by {
            }
        }
    }

    /// Removes `node_id` with all of its sockets and the links into its
    /// input sockets. Every input socket of the node must be linked.
    pub fn purge(&mut self, node_id: NodeID)
        requires
            old(self).wf(),
            forall|j: int| 0 <= j < old(self).ins_of(node_id.raw()).len()
                ==> old(self).links_v().contains_key(#[trigger] old(self).ins_of(node_id.raw())[j].raw()),
        ensures
            final(self).wf(),
            final(self).nodes_v() == old(self).nodes_v().remove(node_id.raw()),
            final(self).node_ins_v() == old(self).node_ins_v().remove(node_id.raw()),
            final(self).node_outs_v() == old(self).node_outs_v().remove(node_id.raw()),
            final(self).ins_v() == old(self).ins_v().remove_keys(input_raws(old(self).ins_of(node_id.raw())).to_set()),
            final(self).links_v() == old(self).links_v().remove_keys(input_raws(old(self).ins_of(node_id.raw())).to_set()),
            final(self).outs_v() == old(self).outs_v().remove_keys(output_raws(old(self).outs_of(node_id.raw())).to_set()),
            final(self).master_node_id == old(self).master_node_id,
            old(self).sockets_owned() ==> final(self).sockets_owned(),
            old(self).is_acyclic() && final(self).links_closed() ==> final(self).is_acyclic(),
    {
        let k = node_id.to_raw();
        let ghost g = *old(self);
        let ghost in_list = old(self).ins_of(k);
        let ghost out_list = old(self).outs_of(k);
        self.nodes.remove(k);
        proof {
            lemma_keys_ok_remove(g.nodes_v(), k);
        }
        let removed_ins = self.node_input_sockets.remove(k);
        match removed_ins {
            Some(in_sockets) => {
                let mut i: usize = 0;
                while i < in_sockets.len()
                    invariant
                        0 <= i <= in_sockets.len(),
                        in_sockets@ == in_list,
                        self.ins_v() == g.ins_v().remove_keys(input_raws(in_list.take(i as int)).to_set()),
                        self.links_v() == g.links_v().remove_keys(input_raws(in_list.take(i as int)).to_set()),
                        keys_ok(self.ins_v()),
                        self.outs_v() == g.outs_v(),
                        self.nodes_v() == g.nodes_v().remove(k),
                        input_lists(self.node_input_sockets) == input_lists(g.node_input_sockets).remove(k),
                        output_lists(self.node_output_sockets) == output_lists(g.node_output_sockets),
                        self.master_node_id == g.master_node_id,
                    decreases in_sockets.len() - i,
                {
                    let s = in_sockets[i].to_raw();
                    let ghost before_ins = self.ins_v();
                    self.input_sockets.remove(s);
                    self.links.remove(s);
                    proof {
                        lemma_keys_ok_remove(before_ins, s);
                        assert(in_list.take(i + 1) =~= in_list.take(i as int).push(in_list[i as int]));
                        assert(input_raws(in_list.take(i + 1)) =~= input_raws(in_list.take(i as int)).push(s));
                        input_raws(in_list.take(i as int)).lemma_push_to_set_commute(s);
                    }
                    i = i + 1;
                }
                proof {
                    assert(in_list.take(i as int) =~= in_list);
                }
            },
            None => {
                proof {
                    assert(input_raws(in_list).to_set() =~= Set::empty());
                    assert(self.ins_v() =~= g.ins_v().remove_keys(Set::empty()));
                    assert(self.links_v() =~= g.links_v().remove_keys(Set::empty()));
                }
            },
        }
        let removed_outs = self.node_output_sockets.remove(k);
        match removed_outs {
            Some(out_sockets) => {
                let mut i: usize = 0;
                while i < out_sockets.len()
                    invariant
                        0 <= i <= out_sockets.len(),
                        out_sockets@ == out_list,
                        self.outs_v() == g.outs_v().remove_keys(output_raws(out_list.take(i as int)).to_set()),
                        keys_ok(self.outs_v()),
                        keys_ok(self.ins_v()),
                        self.ins_v() == g.ins_v().remove_keys(input_raws(in_list).to_set()),
                        self.links_v() == g.links_v().remove_keys(input_raws(in_list).to_set()),
                        self.nodes_v() == g.nodes_v().remove(k),
                        input_lists(self.node_input_sockets) == input_lists(g.node_input_sockets).remove(k),
                        output_lists(self.node_output_sockets) == output_lists(g.node_output_sockets).remove(k),
                        self.master_node_id == g.master_node_id,
                    decreases out_sockets.len() - i,
                {
                    let s = out_sockets[i].to_raw();
                    let ghost before_outs = self.outs_v();
                    self.output_sockets.remove(s);
                    proof {
                        lemma_keys_ok_remove(before_outs, s);
                        assert(out_list.take(i + 1) =~= out_list.take(i as int).push(out_list[i as int]));
                        assert(output_raws(out_list.take(i + 1)) =~= output_raws(out_list.take(i as int)).push(s));
                        output_raws(out_list.take(i as int)).lemma_push_to_set_commute(s);
                    }
                    i = i + 1;
                }
                proof {
                    assert(out_list.take(i as int) =~= out_list);
                }
            },
            None => {
                proof {
                    assert(output_raws(out_list).to_set() =~= Set::empty());
                    assert(self.outs_v() =~= g.outs_v().remove_keys(Set::empty()));
                }
            },
        }
        proof {
            assert(self.node_ins_v() =~= g.node_ins_v().remove(k));
            assert(self.node_outs_v() =~= g.node_outs_v().remove(k));
            assert forall|n: u64, j: int| #![trigger self.node_ins_v()[n][j]]
                self.node_ins_v().contains_key(n) && 0 <= j < self.node_ins_v()[n].len() implies {
                    &&& self.ins_v().contains_key(self.node_ins_v()[n][j].raw())
                    &&& self.ins_v()[self.node_ins_v()[n][j].raw()].owner.raw() == n
                } by {
                let x = self.node_ins_v()[n][j].raw();
                assert(g.node_ins_v()[n][j] == self.node_ins_v()[n][j]);
                if input_raws(in_list).to_set().contains(x) {
                    let jj = choose|jj: int| 0 <= jj < input_raws(in_list).len() && input_raws(in_list)[jj] == x;
                    assert(g.node_ins_v()[k][jj].raw() == x);
                }
            }
            assert forall|n: u64, j: int| #![trigger self.node_outs_v()[n][j]]
                self.node_outs_v().contains_key(n) && 0 <= j < self.node_outs_v()[n].len() implies {
                    &&& self.outs_v().contains_key(self.node_outs_v()[n][j].raw())
                    &&& self.outs_v()[self.node_outs_v()[n][j].raw()].owner.raw() == n
                } by {
                let x = self.node_outs_v()[n][j].raw();
                assert(g.node_outs_v()[n][j] == self.node_outs_v()[n][j]);
                if output_raws(out_list).to_set().contains(x) {
                    let jj = choose|jj: int| 0 <= jj < output_raws(out_list).len() && output_raws(out_list)[jj] == x;
                    assert(g.node_outs_v()[k][jj].raw() == x);
                }
            }
            assert forall|n: u64| #[trigger] self.node_ins_v().contains_key(n) implies self.node_ins_v()[n].no_duplicates() by {
                assert(g.node_ins_v().contains_key(n));
            }
            assert forall|n: u64| #[trigger] self.node_outs_v().contains_key(n) implies self.node_outs_v()[n].no_duplicates() by {
                assert(g.node_outs_v().contains_key(n));
            }
            assert forall|i: u64| #[trigger] self.links_v().contains_key(i) implies self.ins_v().contains_key(i) by {
                assert(g.links_v().contains_key(i));
            }
            if g.sockets_owned() {
                assert forall|s: u64| #[trigger] self.ins_v().contains_key(s) implies {
                    &&& self.nodes_v().contains_key(self.ins_v()[s].owner.raw())
                    &&& input_raws(self.ins_of(self.ins_v()[s].owner.raw())).contains(s)
                } by {
                    assert(g.ins_v().contains_key(s));
                    let o = g.ins_v()[s].owner.raw();
                    assert(!input_raws(in_list).to_set().contains(s));
                    assert(o != k);
                    assert(self.ins_of(o) == g.ins_of(o));
                }
                assert forall|s: u64| #[trigger] self.outs_v().contains_key(s) implies {
                    &&& self.nodes_v().contains_key(self.outs_v()[s].owner.raw())
                    &&& output_raws(self.outs_of(self.outs_v()[s].owner.raw())).contains(s)
                } by {
                    assert(g.outs_v().contains_key(s));
                    let o = g.outs_v()[s].owner.raw();
                    assert(!output_raws(out_list).to_set().contains(s));
                    assert(o != k);
                    assert(self.outs_of(o) == g.outs_of(o));
                }
            }
            if g.is_acyclic() && self.links_closed() {
                let (ins1, outs1, links1) = (self.ins_v(), self.outs_v(), self.links_v());
                assert forall|a: u64, b: u64| #[trigger] feeds_through(ins1, outs1, links1, a, b)
                    implies feeds_through(g.ins_v(), g.outs_v(), g.links_v(), a, b) by {
                    let l = choose|l: u64| #[trigger] links1.contains_key(l)
                        && outs1[links1[l].raw()].owner.raw() == a && ins1[l].owner.raw() == b;
                    assert(g.links_v().contains_key(l));
                }
                lemma_no_cycle_sub(g.nodes_v().dom(), g.ins_v(), g.outs_v(), g.links_v(),
                    self.nodes_v().dom(), ins1, outs1, links1);
            }
        }
    }

    /// `a` feeds `b`: a link runs out of one of `a`'s listed output sockets
    /// into an input socket owned by `b`.
    pub open spec fn feeds_listed(&self, a: u64, b: u64) -> bool {
        exists|i: u64| #[trigger] self.links_v().contains_key(i)
            && self.outs_of(a).contains(self.links_v()[i])
            && self.ins_v()[i].owner.raw() == b
    }

    /// `b` feeds `a`: a link runs into one of `a`'s listed input sockets out
    /// of an output socket owned by `b`.
    pub open spec fn fed_by_listed(&self, a: u64, b: u64) -> bool {
        exists|j: int| 0 <= j < self.ins_of(a).len()
            && self.links_v().contains_key(#[trigger] self.ins_of(a)[j].raw())
            && self.outs_v()[self.links_v()[self.ins_of(a)[j].raw()].raw()].owner.raw() == b
    }

    /// The nodes that `seeds` feed, transitively, and the seeds themselves.
    pub open spec fn downstream(&self, seeds: Set<u64>) -> Set<u64> {
        Set::new(|x: u64| reaches(|a: u64, b: u64| self.feeds_listed(a, b), seeds, x))
    }

    /// The nodes that feed `seeds`, transitively, and the seeds themselves.
    pub open spec fn upstream(&self, seeds: Set<u64>) -> Set<u64> {
        Set::new(|x: u64| reaches(|a: u64, b: u64| self.fed_by_listed(a, b), seeds, x))
    }

    /// Under the graph's invariants, `y` feeds `x` through its listed output
    /// sockets exactly when `x` is fed by `y` through its listed input sockets.
    proof fn lemma_feeds_converse(&self, x: u64, y: u64)
        requires
            self.wf(),
            self.sockets_owned(),
            self.links_closed(),
        ensures
            self.feeds_listed(y, x) <==> self.fed_by_listed(x, y),
    {
        broadcast use OutputSocketID::lemma_raw_injective;
        if self.feeds_listed(y, x) {
            let i = choose|i: u64| #[trigger] self.links_v().contains_key(i)
                && self.outs_of(y).contains(self.links_v()[i]) && self.ins_v()[i].owner.raw() == x;
            assert(self.ins_v().contains_key(i));
            assert(input_raws(self.ins_of(x)).contains(i));
            let j = choose|j: int| 0 <= j < input_raws(self.ins_of(x)).len() && input_raws(self.ins_of(x))[j] == i;
            assert(self.ins_of(x)[j].raw() == i);
            let k = choose|k: int| 0 <= k < self.outs_of(y).len() && self.outs_of(y)[k] == self.links_v()[i];
            assert(self.node_outs_v().contains_key(y));
            assert(self.node_outs_v()[y][k] == self.links_v()[i]);
            assert(self.links_v().contains_key(self.ins_of(x)[j].raw()));
        }
        if self.fed_by_listed(x, y) {
            let j = choose|j: int| 0 <= j < self.ins_of(x).len()
                && self.links_v().contains_key(#[trigger] self.ins_of(x)[j].raw())
                && self.outs_v()[self.links_v()[self.ins_of(x)[j].raw()].raw()].owner.raw() == y;
            let i = self.ins_of(x)[j].raw();
            let o = self.links_v()[i];
            assert(self.outs_v().contains_key(o.raw()));
            assert(output_raws(self.outs_of(y)).contains(o.raw()));
            let k = choose|k: int| 0 <= k < output_raws(self.outs_of(y)).len() && output_raws(self.outs_of(y))[k] == o.raw();
            assert(self.outs_of(y)[k].raw() == o.raw());
            assert(self.outs_of(y)[k] == o);
            assert(self.outs_of(y).contains(o));
            assert(self.node_ins_v().contains_key(x));
            assert(self.node_ins_v()[x][j].raw() == i);
            assert(self.ins_v()[i].owner.raw() == x);
        }
    }

    /// A node `a` is among the ancestors of `b` (what `ancestors_of` gives
    /// for `b`) exactly when `b` is among the successors of `a` (what
    /// `successors_of` gives for `a`).
    pub proof fn law_ancestors_successors_dual(&self, a: u64, b: u64)
        requires
            self.wf(),
            self.sockets_owned(),
            self.links_closed(),
        ensures
            self.upstream(set![b]).contains(a) <==> self.downstream(set![a]).contains(b),
    {
        let fed = |x: u64, y: u64| self.fed_by_listed(x, y);
        let feeds = |x: u64, y: u64| self.feeds_listed(x, y);
        assert forall|x: u64, y: u64| #[trigger] fed(x, y) implies feeds(y, x) by {
            self.lemma_feeds_converse(x, y);
        }
        assert forall|x: u64, y: u64| #[trigger] feeds(x, y) implies fed(y, x) by {
            self.lemma_feeds_converse(y, x);
        }
        if self.upstream(set![b]).contains(a) {
            lemma_reaches_converse(fed, feeds, b, a);
        }
        if self.downstream(set![a]).contains(b) {
            lemma_reaches_converse(feeds, fed, a, b);
        }
    }

    /// The owners of linked input sockets.
    pub open spec fn link_owners(&self) -> Set<u64> {
        self.links_v().dom().map(|i: u64| self.ins_v()[i].owner.raw())
    }

    /// Pushes onto `stack` the owner of every input socket that a link out
    /// of one of `n`'s output sockets feeds.
    fn push_fed(&self, n: NodeID, entries: &Vec<(u64, OutputSocketID)>, stack: &mut Vec<NodeID>)
        requires
            self.wf(),
            forall|i: int| 0 <= i < entries@.len() ==> self.links_v().contains_key(#[trigger] entries@[i].0)
                && self.links_v()[entries@[i].0] == entries@[i].1,
            forall|k: u64| self.links_v().contains_key(k) ==> exists|i: int| 0 <= i < entries@.len() && #[trigger] entries@[i].0 == k,
        ensures
            final(stack)@.len() >= old(stack)@.len(),
            final(stack)@.take(old(stack)@.len() as int) == old(stack)@,
            forall|k: int| old(stack)@.len() <= k < final(stack)@.len() ==> self.feeds_listed(n.raw(), #[trigger] final(stack)@[k].raw())
                && self.link_owners().contains(final(stack)@[k].raw()),
            forall|y: u64| #[trigger] self.feeds_listed(n.raw(), y) ==> pending(final(stack)@, old(stack)@.len() as int, y),
    {
        let ghost start = stack@;
        let outputs = self.outputs_of(n);
        let mut j: usize = 0;
        while j < entries.len()
            invariant
                self.wf(),
                forall|i: int| 0 <= i < entries@.len() ==> self.links_v().contains_key(#[trigger] entries@[i].0)
                    && self.links_v()[entries@[i].0] == entries@[i].1,
                outputs@ == self.outs_of(n.raw()),
                0 <= j <= entries.len(),
                stack@.len() >= start.len(),
                stack@.take(start.len() as int) == start,
                forall|k: int| start.len() <= k < stack@.len() ==> self.feeds_listed(n.raw(), #[trigger] stack@[k].raw())
                    && self.link_owners().contains(stack@[k].raw()),
                forall|jj: int| 0 <= jj < j && outputs@.contains(#[trigger] entries@[jj].1)
                    ==> pending(stack@, start.len() as int, self.ins_v()[entries@[jj].0].owner.raw()),
            decreases entries.len() - j,
        {
            let (i, o) = entries[j];
            if contains_output(outputs, o) {
                proof {
                    assert(entries@[j as int].0 == i);
                    assert(self.ins_v().contains_key(i));
                }
                match self.input_sockets.get(i) {
                    Some(meta) => {
                        let ghost before = stack@;
                        stack.push(meta.owner);
                        proof {
                            let y = meta.owner.raw();
                            assert(self.feeds_listed(n.raw(), y));
                            assert(self.links_v().dom().contains(i));
                            assert(self.link_owners().contains(y));
                            assert(stack@[stack@.len() - 1].raw() == y);
                            assert(stack@.take(start.len() as int) =~= before.take(start.len() as int));
                            assert forall|k: int| start.len() <= k < stack@.len() implies self.feeds_listed(n.raw(), #[trigger] stack@[k].raw())
                                && self.link_owners().contains(stack@[k].raw()) by {
                                if k < before.len() {
                                    assert(stack@[k] == before[k]);
                                }
                            }
                            assert forall|jj: int| 0 <= jj < j + 1 && outputs@.contains(#[trigger] entries@[jj].1)
                                implies pending(stack@, start.len() as int, self.ins_v()[entries@[jj].0].owner.raw()) by {
                                if jj < j {
                                    let w = self.ins_v()[entries@[jj].0].owner.raw();
                                    let k = choose|k: int| start.len() <= k < before.len() && #[trigger] before[k].raw() == w;
                                    assert(stack@[k] == before[k]);
                                } else {
                                    assert(stack@[stack@.len() - 1].raw() == y);
                                }
                            }
                        }
                    },
                    None => {},
                }
            }
            j = j + 1;
        }
        proof {
            assert forall|y: u64| #[trigger] self.feeds_listed(n.raw(), y) implies pending(stack@, start.len() as int, y) by {
                let i = choose|i: u64| #[trigger] self.links_v().contains_key(i)
                    && self.outs_of(n.raw()).contains(self.links_v()[i])
                    && self.ins_v()[i].owner.raw() == y;
                let jj = choose|jj: int| 0 <= jj < entries@.len() && #[trigger] entries@[jj].0 == i;
                assert(outputs@.contains(entries@[jj].1));
            }
        }
    }

    /// All nodes that (transitively) are fed by `targets`' outputs, plus
    /// `targets` themselves, each once.
    pub fn successors_of(&self, targets: &[NodeID]) -> (r: Vec<NodeID>)
        requires
            self.wf(),
        ensures
            node_raws(r@).no_duplicates(),
            node_raws(r@).to_set() == self.downstream(node_raws(targets@).to_set()),
    {
        broadcast use vstd::std_specs::hash::group_hash_axioms;
        let ghost rel = |a: u64, b: u64| self.feeds_listed(a, b);
        let ghost seeds = node_raws(targets@).to_set();
        let ghost univ = seeds + self.link_owners();
        proof {
            vstd::set_lib::lemma_len_subset(self.links_v().dom(), self.ins_v().dom());
            self.links_v().dom().lemma_map_finite(|i: u64| self.ins_v()[i].owner.raw());
        }
        let entries = self.links.entries();
        let mut seen: HashSet<u64> = HashSet::new();
        let mut result: Vec<NodeID> = Vec::new();
        let mut stack: Vec<NodeID> = copy_nodes(targets);
        let mut head: usize = 0;
        proof {
            lemma_walk_start(rel, univ, targets@);
            assert(seen@ =~= Set::empty());
        }
        while head < stack.len()
            invariant
                self.wf(),
                forall|i: int| 0 <= i < entries@.len() ==> self.links_v().contains_key(#[trigger] entries@[i].0)
                    && self.links_v()[entries@[i].0] == entries@[i].1,
                forall|k: u64| self.links_v().contains_key(k) ==> exists|i: int| 0 <= i < entries@.len() && #[trigger] entries@[i].0 == k,
                rel == (|a: u64, b: u64| self.feeds_listed(a, b)),
                univ == seeds + self.link_owners(),
                walk_state(rel, seeds, univ, stack@, head as int, seen@, result@),
            decreases univ.len() - result@.len(), stack@.len() - head,
        {
            proof {
                lemma_walk_bound(rel, seeds, univ, stack@, head as int, seen@, result@);
            }
            let n = stack[head];
            let ghost s0 = stack@;
            let ghost h0 = head as int;
            let ghost seen0 = seen@;
            let ghost r0 = result@;
            head = head + 1;
            if seen.insert(n.to_raw()) {
                result.push(n);
                self.push_fed(n, &entries, &mut stack);
                proof {
                    lemma_walk_visit(rel, seeds, univ, s0, h0, seen0, r0, stack@);
                    lemma_walk_bound(rel, seeds, univ, stack@, head as int, seen@, result@);
                }
            } else {
                proof {
                    lemma_walk_skip(rel, seeds, univ, s0, h0, seen0, r0);
                    assert(seen@ =~= seen0);
                }
            }
        }
        proof {
            lemma_walk_bound(rel, seeds, univ, stack@, head as int, seen@, result@);
            lemma_walk_done(rel, seeds, univ, stack@, seen@, result@);
            assert(Set::new(|x: u64| reaches(rel, seeds, x)) =~= self.downstream(seeds));
        }
        result
    }

    /// The owners of the output sockets that links come from.
    pub open spec fn link_sources(&self) -> Set<u64> {
        self.links_v().dom().map(|i: u64| self.outs_v()[self.links_v()[i].raw()].owner.raw())
    }

    /// Pushes onto `stack` the owner of the output socket linked into each
    /// linked input socket of `n`.
    fn push_feeders(&self, n: NodeID, stack: &mut Vec<NodeID>)
        requires
            self.wf(),
            self.links_closed(),
        ensures
            final(stack)@.len() >= old(stack)@.len(),
            final(stack)@.take(old(stack)@.len() as int) == old(stack)@,
            forall|k: int| old(stack)@.len() <= k < final(stack)@.len() ==> self.fed_by_listed(n.raw(), #[trigger] final(stack)@[k].raw())
                && self.link_sources().contains(final(stack)@[k].raw()),
            forall|y: u64| #[trigger] self.fed_by_listed(n.raw(), y) ==> pending(final(stack)@, old(stack)@.len() as int, y),
    {
        let ghost start = stack@;
        let inputs = self.inputs_of(n);
        let mut j: usize = 0;
        while j < inputs.len()
            invariant
                self.wf(),
                self.links_closed(),
                inputs@ == self.ins_of(n.raw()),
                0 <= j <= inputs.len(),
                stack@.len() >= start.len(),
                stack@.take(start.len() as int) == start,
                forall|k: int| start.len() <= k < stack@.len() ==> self.fed_by_listed(n.raw(), #[trigger] stack@[k].raw())
                    && self.link_sources().contains(stack@[k].raw()),
                forall|jj: int| 0 <= jj < j && self.links_v().contains_key(#[trigger] inputs@[jj].raw())
                    ==> pending(stack@, start.len() as int, self.outs_v()[self.links_v()[inputs@[jj].raw()].raw()].owner.raw()),
            decreases inputs.len() - j,
        {
            let in_sock = inputs[j];
            match self.links.get(in_sock.to_raw()) {
                Some(src) => {
                    proof {
                        assert(self.outs_v().contains_key(src.raw()));
                    }
                    match self.output_sockets.get(src.to_raw()) {
                        Some(meta) => {
                            let ghost before = stack@;
                            stack.push(meta.owner);
                            proof {
                                let y = meta.owner.raw();
                                assert(self.ins_of(n.raw())[j as int] == in_sock);
                                assert(self.fed_by_listed(n.raw(), y));
                                assert(self.links_v().dom().contains(in_sock.raw()));
                                assert(self.link_sources().contains(y));
                                assert(stack@.take(start.len() as int) =~= before.take(start.len() as int));
                                assert forall|k: int| start.len() <= k < stack@.len() implies self.fed_by_listed(n.raw(), #[trigger] stack@[k].raw())
                                    && self.link_sources().contains(stack@[k].raw()) by {
                                    if k < before.len() {
                                        assert(stack@[k] == before[k]);
                                    }
                                }
                                assert forall|jj: int| 0 <= jj < j + 1 && self.links_v().contains_key(#[trigger] inputs@[jj].raw())
                                    implies pending(stack@, start.len() as int, self.outs_v()[self.links_v()[inputs@[jj].raw()].raw()].owner.raw()) by {
                                    if jj < j {
                                        let w = self.outs_v()[self.links_v()[inputs@[jj].raw()].raw()].owner.raw();
                                        let k = choose|k: int| start.len() <= k < before.len() && #[trigger] before[k].raw() == w;
                                        assert(stack@[k] == before[k]);
                                    } else {
                                        assert(stack@[stack@.len() - 1].raw() == y);
                                    }
                                }
                            }
                        },
                        None => {},
                    }
                },
                None => {},
            }
            j = j + 1;
        }
        proof {
            assert forall|y: u64| #[trigger] self.fed_by_listed(n.raw(), y) implies pending(stack@, start.len() as int, y) by {
                let jj = choose|jj: int| 0 <= jj < self.ins_of(n.raw()).len()
                    && self.links_v().contains_key(#[trigger] self.ins_of(n.raw())[jj].raw())
                    && self.outs_v()[self.links_v()[self.ins_of(n.raw())[jj].raw()].raw()].owner.raw() == y;
                assert(inputs@[jj] == self.ins_of(n.raw())[jj]);
            }
        }
    }

    /// All nodes that (transitively) feed `targets`' inputs, plus `targets`
    /// themselves, each once.
    pub fn ancestors_of(&self, targets: &[NodeID]) -> (r: Vec<NodeID>)
        requires
            self.wf(),
            self.links_closed(),
        ensures
            node_raws(r@).no_duplicates(),
            node_raws(r@).to_set() == self.upstream(node_raws(targets@).to_set()),
    {
        broadcast use vstd::std_specs::hash::group_hash_axioms;
        let ghost rel = |a: u64, b: u64| self.fed_by_listed(a, b);
        let ghost seeds = node_raws(targets@).to_set();
        let ghost univ = seeds + self.link_sources();
        proof {
            vstd::set_lib::lemma_len_subset(self.links_v().dom(), self.ins_v().dom());
            self.links_v().dom().lemma_map_finite(|i: u64| self.outs_v()[self.links_v()[i].raw()].owner.raw());
        }
        let mut seen: HashSet<u64> = HashSet::new();
        let mut result: Vec<NodeID> = Vec::new();
        let mut stack: Vec<NodeID> = copy_nodes(targets);
        let mut head: usize = 0;
        proof {
            lemma_walk_start(rel, univ, targets@);
            assert(seen@ =~= Set::empty());
        }
        while head < stack.len()
            invariant
                self.wf(),
                self.links_closed(),
                rel == (|a: u64, b: u64| self.fed_by_listed(a, b)),
                univ == seeds + self.link_sources(),
                walk_state(rel, seeds, univ, stack@, head as int, seen@, result@),
            decreases univ.len() - result@.len(), stack@.len() - head,
        {
            proof {
                lemma_walk_bound(rel, seeds, univ, stack@, head as int, seen@, result@);
            }
            let n = stack[head];
            let ghost s0 = stack@;
            let ghost h0 = head as int;
            let ghost seen0 = seen@;
            let ghost r0 = result@;
            head = head + 1;
            if seen.insert(n.to_raw()) {
                result.push(n);
                self.push_feeders(n, &mut stack);
                proof {
                    lemma_walk_visit(rel, seeds, univ, s0, h0, seen0, r0, stack@);
                    lemma_walk_bound(rel, seeds, univ, stack@, head as int, seen@, result@);
                }
            } else {
                proof {
                    lemma_walk_skip(rel, seeds, univ, s0, h0, seen0, r0);
                    assert(seen@ =~= seen0);
                }
            }
        }
        proof {
            lemma_walk_bound(rel, seeds, univ, stack@, head as int, seen@, result@);
            lemma_walk_done(rel, seeds, univ, stack@, seen@, result@);
            assert(Set::new(|x: u64| reaches(rel, seeds, x)) =~= self.upstream(seeds));
        }
        result
    }

    /// The owner of the output socket that link `i` comes from.
    pub open spec fn link_source(&self, i: u64) -> u64 {
        self.outs_v()[self.links_v()[i].raw()].owner.raw()
    }

    /// The owner of the input socket that link `i` goes into.
    pub open spec fn link_target(&self, i: u64) -> u64 {
        self.ins_v()[i].owner.raw()
    }

    /// `a` feeds `b`: some link runs from a socket owned by `a` into a socket
    /// owned by `b`.
    pub open spec fn feeds(&self, a: u64, b: u64) -> bool {
        exists|i: u64| #[trigger] self.links_v().contains_key(i) && self.link_source(i) == a && self.link_target(i) == b
    }

    /// `order` lists each node of `set` once, every node before the nodes it
    /// feeds.
    pub open spec fn is_topo_order(&self, set: Set<u64>, order: Seq<u64>) -> bool {
        &&& order.no_duplicates()
        &&& order.to_set() == set
        &&& forall|i: int, j: int| 0 <= i < order.len() && 0 <= j < order.len() && #[trigger] self.feeds(order[i], order[j]) ==> i < j
    }

    /// The nodes a sort covers: those downstream of the seeds, or all nodes.
    pub open spec fn sort_domain(&self, filter: Option<Seq<NodeID>>) -> Set<u64> {
        match filter {
            Some(seeds) => self.downstream(node_raws(seeds).to_set()),
            None => self.nodes_v().dom(),
        }
    }

    /// Every node, once each.
    pub fn node_ids(&self) -> (r: Vec<NodeID>)
        requires
            self.wf(),
        ensures
            node_raws(r@).no_duplicates(),
            node_raws(r@).to_set() == self.nodes_v().dom(),
    {
        let keys = self.nodes.keys();
        let mut r: Vec<NodeID> = Vec::new();
        let mut i: usize = 0;
        while i < keys.len()
            invariant
                self.wf(),
                keys@.no_duplicates(),
                forall|k: int| 0 <= k < keys@.len() ==> self.nodes_v().contains_key(#[trigger] keys@[k]),
                0 <= i <= keys.len(),
                node_raws(r@) == keys@.take(i as int),
            decreases keys.len() - i,
        {
            proof {
                assert(self.nodes_v().contains_key(keys@[i as int]));
            }
            let ghost prev = r@;
            let id = NodeID::from_raw(keys[i]);
            r.push(id);
            proof {
                assert(node_raws(r@) =~= node_raws(prev).push(id.raw()));
                assert(keys@.take(i + 1) =~= keys@.take(i as int).push(keys@[i as int]));
            }
            i = i + 1;
        }
        proof {
            assert(keys@.take(i as int) =~= keys@);
            assert(node_raws(r@).to_set() =~= self.nodes_v().dom());
        }
        r
    }

    /// The edges between the nodes of `s`, by position, one per link: the
    /// number of edges into each node, and the targets of the edges out of
    /// each node.
    fn edge_lists(&self, s: &Vec<NodeID>, index: &HashMap<u64, usize>) -> (r: (Vec<usize>, Vec<Vec<usize>>, Ghost<Seq<(int, int)>>))
        requires
            self.wf(),
            self.links_closed(),
            node_raws(s@).no_duplicates(),
            forall|k: int| 0 <= k < s.len() ==> index@.contains_key(#[trigger] s@[k].raw()) && index@[s@[k].raw()] == k,
            forall|x: u64| #[trigger] index@.contains_key(x) ==> exists|k: int| 0 <= k < s.len() && s@[k].raw() == x,
        ensures
            r.0.len() == s.len(),
            r.1.len() == s.len(),
            forall|m: int| 0 <= m < r.2@.len() ==> 0 <= (#[trigger] r.2@[m]).0 < s.len() && 0 <= r.2@[m].1 < s.len()
                && self.feeds(s@[r.2@[m].0].raw(), s@[r.2@[m].1].raw()),
            forall|a: int, b: int| 0 <= a < s.len() && 0 <= b < s.len() && #[trigger] self.feeds(s@[a].raw(), s@[b].raw())
                ==> exists|m: int| 0 <= m < r.2@.len() && (#[trigger] r.2@[m]).0 == a && r.2@[m].1 == b,
            forall|v: int| 0 <= v < s.len() ==> #[trigger] r.0@[v] == pending_into(r.2@, v, Set::empty()),
            forall|a: int| 0 <= a < s.len() ==> as_ints(#[trigger] r.1@[a]@) == targets_of(r.2@, a),
    {
        broadcast use vstd::std_specs::hash::group_hash_axioms;
        let n = s.len();
        let mut in_degree: Vec<usize> = Vec::new();
        let mut successors: Vec<Vec<usize>> = Vec::new();
        let mut i: usize = 0;
        while i < n
            invariant
                0 <= i <= n,
                in_degree.len() == i,
                successors.len() == i,
                forall|v: int| 0 <= v < i ==> #[trigger] in_degree@[v] == 0,
                forall|a: int| 0 <= a < i ==> (#[trigger] successors@[a])@ == Seq::<usize>::empty(),
            decreases n - i,
        {
            in_degree.push(0);
            successors.push(Vec::new());
            i = i + 1;
        }
        let entries = self.links.entries();
        let ghost mut e: Seq<(int, int)> = Seq::empty();
        let mut j: usize = 0;
        while j < entries.len()
            invariant
                self.wf(),
                self.links_closed(),
                n == s.len(),
                forall|k: int| 0 <= k < s.len() ==> index@.contains_key(#[trigger] s@[k].raw()) && index@[s@[k].raw()] == k,
                forall|x: u64| #[trigger] index@.contains_key(x) ==> exists|k: int| 0 <= k < s.len() && s@[k].raw() == x,
                forall|i: int| 0 <= i < entries@.len() ==> self.links_v().contains_key(#[trigger] entries@[i].0)
                    && self.links_v()[entries@[i].0] == entries@[i].1,
                forall|k: u64| self.links_v().contains_key(k) ==> exists|i: int| 0 <= i < entries@.len() && #[trigger] entries@[i].0 == k,
                0 <= j <= entries.len(),
                e.len() <= j,
                in_degree.len() == n,
                successors.len() == n,
                forall|m: int| 0 <= m < e.len() ==> 0 <= (#[trigger] e[m]).0 < n && 0 <= e[m].1 < n
                    && self.feeds(s@[e[m].0].raw(), s@[e[m].1].raw()),
                forall|jj: int| 0 <= jj < j && index@.contains_key(self.link_source((#[trigger] entries@[jj]).0))
                    && index@.contains_key(self.link_target(entries@[jj].0))
                    ==> exists|m: int| 0 <= m < e.len() && #[trigger] e[m] == (
                        index@[self.link_source(entries@[jj].0)] as int, index@[self.link_target(entries@[jj].0)] as int),
                forall|v: int| 0 <= v < n ==> #[trigger] in_degree@[v] == pending_into(e, v, Set::empty()),
                forall|a: int| 0 <= a < n ==> as_ints(#[trigger] successors@[a]@) == targets_of(e, a),
            decreases entries.len() - j,
        {
            let (i, o) = entries[j];
            proof {
                assert(entries@[j as int].0 == i);
                assert(self.ins_v().contains_key(i));
                assert(self.outs_v().contains_key(o.raw()));
            }
            let to = match self.input_sockets.get(i) {
                Some(meta) => meta.owner.to_raw(),
                None => { j = j + 1; continue; },
            };
            let from = match self.output_sockets.get(o.to_raw()) {
                Some(meta) => meta.owner.to_raw(),
                None => { j = j + 1; continue; },
            };
            let ti = match index.get(&to) {
                Some(t) => *t,
                None => { j = j + 1; continue; },
            };
            let fi = match index.get(&from) {
                Some(f) => *f,
                None => { j = j + 1; continue; },
            };
            proof {
                let kt = choose|k: int| 0 <= k < s.len() && s@[k].raw() == to;
                let kf = choose|k: int| 0 <= k < s.len() && s@[k].raw() == from;
                assert(index@[s@[kt].raw()] == kt);
                assert(index@[s@[kf].raw()] == kf);
                lemma_pending_bound(e, ti as int, Set::empty());
                assert(self.feeds(s@[fi as int].raw(), s@[ti as int].raw()));
            }
            let ghost e0 = e;
            proof {
                e = e.push((fi as int, ti as int));
                assert(e.drop_last() == e0);
            }
            let d = in_degree[ti];
            in_degree.set(ti, d + 1);
            let ghost succ0 = successors@;
            successors[fi].push(ti);
            proof {
                assert forall|a: int| 0 <= a < n implies as_ints(#[trigger] successors@[a]@) == targets_of(e, a) by {
                    if a == fi as int {
                        assert(as_ints(successors@[a]@) =~= as_ints(succ0[a]@).push(ti as int));
                    } else {
                        assert(successors@[a] == succ0[a]);
                    }
                }
                assert forall|m: int| 0 <= m < e.len() implies 0 <= (#[trigger] e[m]).0 < n && 0 <= e[m].1 < n
                    && self.feeds(s@[e[m].0].raw(), s@[e[m].1].raw()) by {
                    if m < e0.len() {
                        assert(e[m] == e0[m]);
                    }
                }
                assert forall|jj: int| 0 <= jj < j + 1 && index@.contains_key(self.link_source((#[trigger] entries@[jj]).0))
                    && index@.contains_key(self.link_target(entries@[jj].0))
                    implies exists|m: int| 0 <= m < e.len() && #[trigger] e[m] == (
                        index@[self.link_source(entries@[jj].0)] as int, index@[self.link_target(entries@[jj].0)] as int) by {
                    if jj < j {
                        let m = choose|m: int| 0 <= m < e0.len() && #[trigger] e0[m] == (
                            index@[self.link_source(entries@[jj].0)] as int, index@[self.link_target(entries@[jj].0)] as int);
                        assert(e[m] == e0[m]);
                    } else {
                        assert(e[e.len() - 1] == (fi as int, ti as int));
                    }
                }
            }
            j = j + 1;
        }
        proof {
            assert forall|a: int, b: int| 0 <= a < s.len() && 0 <= b < s.len() && #[trigger] self.feeds(s@[a].raw(), s@[b].raw())
                implies exists|m: int| 0 <= m < e.len() && #[trigger] e[m] == (a, b) by {
                let i = choose|i: u64| #[trigger] self.links_v().contains_key(i) && self.link_source(i) == s@[a].raw()
                    && self.link_target(i) == s@[b].raw();
                let jj = choose|jj: int| 0 <= jj < entries@.len() && #[trigger] entries@[jj].0 == i;
                assert(index@.contains_key(s@[a].raw()));
                assert(index@.contains_key(s@[b].raw()));
                assert(self.link_source(entries@[jj].0) == s@[a].raw());
                assert(self.link_target(entries@[jj].0) == s@[b].raw());
                assert(index@[s@[a].raw()] == a);
                assert(index@[s@[b].raw()] == b);
                let m = choose|m: int| 0 <= m < e.len() && #[trigger] e[m] == (
                    index@[self.link_source(entries@[jj].0)] as int, index@[self.link_target(entries@[jj].0)] as int);
                assert(e[m] == (a, b));
            }
        }
        let ghost_e: Ghost<Seq<(int, int)>> = Ghost(e);
        proof {
            assert(ghost_e@ == e);
            assert forall|a: int, b: int| 0 <= a < s.len() && 0 <= b < s.len() && #[trigger] self.feeds(s@[a].raw(), s@[b].raw())
                implies exists|m: int| 0 <= m < ghost_e@.len() && (#[trigger] ghost_e@[m]).0 == a && ghost_e@[m].1 == b by {
                let m = choose|m: int| 0 <= m < e.len() && #[trigger] e[m] == (a, b);
                assert(ghost_e@[m] == (a, b));
            }
        }
        let res = (in_degree, successors, ghost_e);
        proof {
            assert forall|a: int, b: int| 0 <= a < s.len() && 0 <= b < s.len() && #[trigger] self.feeds(s@[a].raw(), s@[b].raw())
                implies exists|m: int| 0 <= m < res.2@.len() && (#[trigger] res.2@[m]).0 == a && res.2@[m].1 == b by {
                let m = choose|m: int| 0 <= m < ghost_e@.len() && (#[trigger] ghost_e@[m]).0 == a && ghost_e@[m].1 == b;
                assert(res.2@[m] == ghost_e@[m]);
            }
        }
        res
    }

    /// When every position left out of `q` has an edge into it from another
    /// position left out, and some position is left out, the nodes of `s`
    /// have no topological order.
    proof fn lemma_stuck_no_order(&self, s: Seq<NodeID>, q: Seq<int>, e: Seq<(int, int)>, o: Seq<u64>)
        requires
            node_raws(s).no_duplicates(),
            forall|m: int| 0 <= m < e.len() ==> 0 <= (#[trigger] e[m]).0 < s.len() && 0 <= e[m].1 < s.len()
                && self.feeds(s[e[m].0].raw(), s[e[m].1].raw()),
            exists|v: int| 0 <= v < s.len() && !q.contains(v),
            forall|v: int| 0 <= v < s.len() && !q.contains(v) ==> #[trigger] blocked(e, q, v),
        ensures
            !self.is_topo_order(node_raws(s).to_set(), o),
    {
        if self.is_topo_order(node_raws(s).to_set(), o) {
            let bad = |x: u64| exists|v: int| 0 <= v < s.len() && !q.contains(v) && #[trigger] s[v].raw() == x;
            let v0 = choose|v: int| 0 <= v < s.len() && !q.contains(v);
            assert(node_raws(s)[v0] == s[v0].raw());
            assert(o.to_set().contains(s[v0].raw()));
            let k0 = choose|k: int| 0 <= k < o.len() && o[k] == s[v0].raw();
            assert(bad(o[k0]));
            let p = lemma_first_index(o, bad, k0);
            let v = choose|v: int| 0 <= v < s.len() && !q.contains(v) && #[trigger] s[v].raw() == o[p];
            assert(blocked(e, q, v));
            let m = choose|m: int| 0 <= m < e.len() && (#[trigger] e[m]).1 == v && !q.contains(e[m].0);
            let u = e[m].0;
            assert(self.feeds(s[u].raw(), s[v].raw()));
            assert(node_raws(s)[u] == s[u].raw());
            assert(o.to_set().contains(s[u].raw()));
            let pu = choose|k: int| 0 <= k < o.len() && o[k] == s[u].raw();
            assert(self.feeds(o[pu], o[p]));
            assert(pu < p);
            assert(bad(o[pu]));
        }
    }

    /// Orders the nodes so that every node comes before the nodes it feeds:
    /// all nodes, or, with `filter`, the nodes downstream of the filter's
    /// nodes (including them). Fails exactly when no such order exists.
    pub fn topo_sort(&self, filter: Option<&[NodeID]>) -> (r: Result<Vec<NodeID>, EngineError>)
        requires
            self.wf(),
            self.links_closed(),
        ensures
            match r {
                Ok(order) => self.is_topo_order(self.sort_domain(seeds_view(filter)), node_raws(order@)),
                Err(e) => e == EngineError::WouldCreateCycle
                    && forall|o: Seq<u64>| !self.is_topo_order(self.sort_domain(seeds_view(filter)), o),
            },
    {
        let s = match filter {
            Some(seeds) => self.successors_of(seeds),
            None => self.node_ids(),
        };
        let ghost domain = self.sort_domain(seeds_view(filter));
        let index = index_map(&s);
        let (in_degree, successors, e) = self.edge_lists(&s, &index);
        let queue = kahn(in_degree, &successors, e);
        let ghost n = s@.len();
        proof {
            lemma_positions_bound(as_ints(queue@), n as int);
        }
        if queue.len() != s.len() {
            proof {
                let q = as_ints(queue@);
                assert(exists|v: int| 0 <= v < n && !q.contains(v)) by {
                    if forall|v: int| 0 <= v < n ==> q.contains(v) {
                        let range = vstd::set_lib::set_int_range(0, n as int);
                        vstd::set_lib::lemma_int_range(0, n as int);
                        assert(range.subset_of(q.to_set()));
                        q.unique_seq_to_set();
                        vstd::set_lib::lemma_len_subset(range, q.to_set());
                    }
                }
                assert forall|o: Seq<u64>| !self.is_topo_order(domain, o) by {
                    self.lemma_stuck_no_order(s@, q, e@, o);
                }
            }
            return Err(EngineError::WouldCreateCycle);
        }
        let mut order: Vec<NodeID> = Vec::new();
        let mut k: usize = 0;
        while k < queue.len()
            invariant
                0 <= k <= queue.len(),
                queue.len() == s.len(),
                forall|i: int| 0 <= i < queue.len() ==> #[trigger] queue@[i] < s.len(),
                order@.len() == k,
                forall|i: int| 0 <= i < k ==> #[trigger] order@[i] == s@[queue@[i] as int],
            decreases queue.len() - k,
        {
            order.push(s[queue[k]]);
            k = k + 1;
        }
        proof {
            let q = as_ints(queue@);
            let ord = node_raws(order@);
            assert forall|i: int| 0 <= i < ord.len() implies #[trigger] ord[i] == node_raws(s@)[q[i]] by {
                assert(order@[i] == s@[queue@[i] as int]);
            }
            assert(ord.no_duplicates()) by {
                assert forall|i: int, j: int| 0 <= i < ord.len() && 0 <= j < ord.len() && i != j implies ord[i] != ord[j] by {
                    assert(q[i] != q[j]);
                    assert(ord[i] == node_raws(s@)[q[i]]);
                    assert(ord[j] == node_raws(s@)[q[j]]);
                }
            }
            assert(ord.to_set() =~= node_raws(s@).to_set()) by {
                assert forall|x: u64| node_raws(s@).to_set().contains(x) implies ord.to_set().contains(x) by {
                    let v = choose|v: int| 0 <= v < node_raws(s@).len() && node_raws(s@)[v] == x;
                    assert(q.contains(v));
                    let i = choose|i: int| 0 <= i < q.len() && q[i] == v;
                    assert(ord[i] == x);
                }
                assert forall|x: u64| ord.to_set().contains(x) implies node_raws(s@).to_set().contains(x) by {
                    let i = choose|i: int| 0 <= i < ord.len() && ord[i] == x;
                    assert(node_raws(s@)[q[i]] == x);
                }
            }
            assert forall|i: int, j: int| 0 <= i < ord.len() && 0 <= j < ord.len() && #[trigger] self.feeds(ord[i], ord[j])
                implies i < j by {
                let a = q[i];
                let b = q[j];
                assert(ord[i] == s@[a].raw());
                assert(ord[j] == s@[b].raw());
                let m = choose|m: int| 0 <= m < e@.len() && (#[trigger] e@[m]).0 == a && e@[m].1 == b;
                assert(queue@[j] == e@[m].1);
                let p = choose|p: int| 0 <= p < j && queue@[p] == e@[m].0;
                assert(q[p] == q[i]);
            }
        }
        Ok(order)
    }

    /// With the links `links` in place of the graph's own, the nodes have an
    /// order in which every node comes before the nodes it feeds.
    pub open spec fn acyclic_with(&self, links: Map<u64, OutputSocketID>) -> bool {
        no_cycle(self.nodes_v().dom(), self.ins_v(), self.outs_v(), links)
    }

    /// The graph has no cycle: its nodes have a topological order.
    pub open spec fn is_acyclic(&self) -> bool {
        self.acyclic_with(self.links_v())
    }

    /// A graph is acyclic exactly when all of its nodes can be sorted.
    pub proof fn lemma_acyclic_iff_sortable(&self)
        ensures
            self.is_acyclic() <==> exists|o: Seq<u64>| self.is_topo_order(self.nodes_v().dom(), o),
    {
        let (ins, outs, links) = (self.ins_v(), self.outs_v(), self.links_v());
        assert forall|a: u64, b: u64| #![trigger self.feeds(a, b)] #![trigger feeds_through(ins, outs, links, a, b)]
            self.feeds(a, b) <==> feeds_through(ins, outs, links, a, b) by {
            if self.feeds(a, b) {
                let i = choose|i: u64| #[trigger] self.links_v().contains_key(i) && self.link_source(i) == a
                    && self.link_target(i) == b;
                assert(links.contains_key(i));
            }
            if feeds_through(ins, outs, links, a, b) {
                let i = choose|i: u64| #[trigger] links.contains_key(i)
                    && outs[links[i].raw()].owner.raw() == a && ins[i].owner.raw() == b;
                assert(self.link_source(i) == a && self.link_target(i) == b);
            }
        }
        if self.is_acyclic() {
            let o = choose|o: Seq<u64>| is_sorted_by(self.nodes_v().dom(), ins, outs, links, o);
            assert(self.is_topo_order(self.nodes_v().dom(), o));
        }
        if exists|o: Seq<u64>| self.is_topo_order(self.nodes_v().dom(), o) {
            let o = choose|o: Seq<u64>| self.is_topo_order(self.nodes_v().dom(), o);
            assert(is_sorted_by(self.nodes_v().dom(), ins, outs, links, o));
        }
    }

    /// Taking links away keeps an acyclic graph acyclic.
    pub proof fn lemma_acyclic_fewer_links(&self, more: Map<u64, OutputSocketID>, fewer: Map<u64, OutputSocketID>)
        requires
            self.acyclic_with(more),
            fewer.submap_of(more),
        ensures
            self.acyclic_with(fewer),
    {
        let (nodes, ins, outs) = (self.nodes_v().dom(), self.ins_v(), self.outs_v());
        let o = choose|o: Seq<u64>| is_sorted_by(nodes, ins, outs, more, o);
        assert forall|i: int, j: int| 0 <= i < o.len() && 0 <= j < o.len()
            && #[trigger] feeds_through(ins, outs, fewer, o[i], o[j]) implies i < j by {
            let k = choose|k: u64| #[trigger] fewer.contains_key(k)
                && outs[fewer[k].raw()].owner.raw() == o[i] && ins[k].owner.raw() == o[j];
            assert(more.contains_key(k));
            assert(feeds_through(ins, outs, more, o[i], o[j]));
        }
        assert(is_sorted_by(nodes, ins, outs, fewer, o));
    }

    /// A graph grown from an acyclic graph by one node whose sockets are new
    /// and unlinked is acyclic: the new node can come first.
    proof fn lemma_acyclic_grown(g0: NodeGraph, g1: NodeGraph, k: u64)
        requires
            g0.wf(),
            g0.sockets_owned(),
            g0.links_closed(),
            g0.is_acyclic(),
            !g0.nodes_v().contains_key(k),
            g1.nodes_v().dom() == g0.nodes_v().dom().insert(k),
            g1.links_v() == g0.links_v(),
            forall|s: u64| #[trigger] g0.ins_v().contains_key(s) ==> g1.ins_v()[s] == g0.ins_v()[s],
            forall|s: u64| #[trigger] g0.outs_v().contains_key(s) ==> g1.outs_v()[s] == g0.outs_v()[s],
        ensures
            g1.is_acyclic(),
    {
        let (ins0, outs0, ins1, outs1, links) = (g0.ins_v(), g0.outs_v(), g1.ins_v(), g1.outs_v(), g0.links_v());
        let o0 = choose|o: Seq<u64>| is_sorted_by(g0.nodes_v().dom(), ins0, outs0, links, o);
        let o1 = seq![k] + o0;
        assert(!o0.contains(k)) by {
            if o0.contains(k) {
                assert(o0.to_set().contains(k));
            }
        }
        assert(o1.no_duplicates()) by {
            assert forall|i: int, j: int| 0 <= i < o1.len() && 0 <= j < o1.len() && i != j implies o1[i] != o1[j] by {
                if i == 0 {
                    assert(o0[j - 1] == o1[j]);
                } else if j == 0 {
                    assert(o0[i - 1] == o1[i]);
                } else {
                    assert(o0[i - 1] != o0[j - 1]);
                }
            }
        }
        assert(o1.to_set() =~= g1.nodes_v().dom()) by {
            assert forall|x: u64| o1.to_set().contains(x) <==> g1.nodes_v().dom().contains(x) by {
                if o1.to_set().contains(x) {
                    let i = choose|i: int| 0 <= i < o1.len() && o1[i] == x;
                    if i > 0 {
                        assert(o0[i - 1] == x);
                        assert(o0.to_set().contains(x));
                    }
                }
                if g1.nodes_v().dom().contains(x) && x != k {
                    assert(o0.to_set().contains(x));
                    let i = choose|i: int| 0 <= i < o0.len() && o0[i] == x;
                    assert(o1[i + 1] == x);
                }
                if x == k {
                    assert(o1[0] == x);
                }
            }
        }
        assert forall|i: int, j: int| 0 <= i < o1.len() && 0 <= j < o1.len()
            && #[trigger] feeds_through(ins1, outs1, links, o1[i], o1[j]) implies i < j by {
            let l = choose|l: u64| #[trigger] links.contains_key(l)
                && outs1[links[l].raw()].owner.raw() == o1[i] && ins1[l].owner.raw() == o1[j];
            assert(ins0.contains_key(l));
            assert(g0.nodes_v().contains_key(ins0[l].owner.raw()));
            assert(j != 0);
            if i != 0 {
                assert(outs0.contains_key(links[l].raw()));
                assert(o1[i] == o0[i - 1] && o1[j] == o0[j - 1]);
                assert(feeds_through(ins0, outs0, links, o0[i - 1], o0[j - 1]));
            }
        }
        assert(is_sorted_by(g1.nodes_v().dom(), ins1, outs1, links, o1));
    }

    /// Links output socket `from_id` into input socket `to_id`, replacing the
    /// link that fed `to_id` before, and gives back that earlier source.
    /// Refused when the kinds cannot connect (nothing changes) or when the
    /// link would close a cycle: then the link into `to_id` is taken out,
    /// so an earlier link into it is lost too.
    pub fn add_link(&mut self, from_id: OutputSocketID, to_id: InputSocketID) -> (r: Result<Option<OutputSocketID>, EngineError>)
        requires
            old(self).wf(),
            old(self).outs_v().contains_key(from_id.raw()),
            old(self).ins_v().contains_key(to_id.raw()),
            connects(old(self).outs_v()[from_id.raw()].kind, old(self).ins_v()[to_id.raw()].kind) ==> old(self).links_closed(),
        ensures
            final(self).wf(),
            old(self).links_closed() ==> final(self).links_closed(),
            final(self).nodes_v() == old(self).nodes_v(),
            final(self).ins_v() == old(self).ins_v(),
            final(self).outs_v() == old(self).outs_v(),
            final(self).node_ins_v() == old(self).node_ins_v(),
            final(self).node_outs_v() == old(self).node_outs_v(),
            final(self).master_node_id == old(self).master_node_id,
            ({
                let from_kind = old(self).outs_v()[from_id.raw()].kind;
                let to_kind = old(self).ins_v()[to_id.raw()].kind;
                let linked = old(self).links_v().insert(to_id.raw(), from_id);
                &&& !connects(from_kind, to_kind) ==> r == Err::<Option<OutputSocketID>, EngineError>(
                        EngineError::IncompatibleSockets { from: from_kind, to: to_kind })
                    && final(self).links_v() == old(self).links_v()
                &&& connects(from_kind, to_kind) && old(self).acyclic_with(linked) ==>
                    r == Ok::<Option<OutputSocketID>, EngineError>(old(self).links_v().get(to_id.raw()))
                    && final(self).links_v() == linked
                &&& connects(from_kind, to_kind) && !old(self).acyclic_with(linked) ==>
                    r == Err::<Option<OutputSocketID>, EngineError>(EngineError::WouldCreateCycle)
                    && final(self).links_v() == old(self).links_v().remove(to_id.raw())
            }),
            r is Ok ==> final(self).is_acyclic(),
            old(self).is_acyclic() ==> final(self).is_acyclic(),
    {
        let from_kind = self.output_sockets.get(from_id.to_raw()).unwrap().kind;
        let to_kind = self.input_sockets.get(to_id.to_raw()).unwrap().kind;
        if !from_kind.can_connect_to(to_kind) {
            return Err(EngineError::IncompatibleSockets { from: from_kind, to: to_kind });
        }
        let ghost g0 = *self;
        proof {
            assert forall|j: u64| self.links_v().contains_key(j) && key_index(j) == key_index(to_id.raw())
                implies j == to_id.raw() by {
                assert(self.ins_v().contains_key(j));
            }
        }
        let prev_link = self.links.insert(to_id.to_raw(), from_id);
        proof {
            assert forall|i: u64| #[trigger] self.links_v().contains_key(i) implies self.ins_v().contains_key(i) by {
                if i != to_id.raw() {
                    assert(g0.links_v().contains_key(i));
                }
            }
            assert forall|i: u64| #[trigger] self.links_v().contains_key(i)
                implies self.outs_v().contains_key(self.links_v()[i].raw()) by {
                if i != to_id.raw() {
                    assert(g0.links_v().contains_key(i));
                }
            }
            assert(self.wf());
            self.lemma_acyclic_iff_sortable();
            assert(self.sort_domain(seeds_view(None)) == self.nodes_v().dom());
        }
        let sorted = self.topo_sort(None);
        if sorted.is_err() {
            self.remove_link(from_id, to_id);
            proof {
                assert(self.links_v() =~= g0.links_v().remove(to_id.raw()));
                if g0.is_acyclic() {
                    assert(self.links_v().submap_of(g0.links_v()));
                    g0.lemma_acyclic_fewer_links(g0.links_v(), self.links_v());
                }
            }
            return Err(EngineError::WouldCreateCycle);
        }
        proof {
            let order = node_raws(sorted.unwrap()@);
            assert(self.is_topo_order(self.nodes_v().dom(), order));
        }
        Ok(prev_link)
    }

    /// The nodes a sort covers are nodes of the graph, when the seeds are.
    pub proof fn lemma_sort_domain_nodes(&self, filter: Option<Seq<NodeID>>)
        requires
            self.wf(),
            self.sockets_owned(),
            filter matches Some(s) ==> forall|k: int| 0 <= k < s.len() ==> self.nodes_v().contains_key(#[trigger] s[k].raw()),
        ensures
            self.sort_domain(filter).subset_of(self.nodes_v().dom()),
    {
        match filter {
            Some(s) => {
                let rel = |a: u64, b: u64| self.feeds_listed(a, b);
                let seeds = node_raws(s).to_set();
                let nodes = self.nodes_v().dom();
                assert forall|x: u64| seeds.contains(x) implies nodes.contains(x) by {
                    let k = choose|k: int| 0 <= k < node_raws(s).len() && node_raws(s)[k] == x;
                    assert(self.nodes_v().contains_key(s[k].raw()));
                }
                assert forall|a: u64, b: u64| nodes.contains(a) && #[trigger] rel(a, b) implies nodes.contains(b) by {
                    let i = choose|i: u64| #[trigger] self.links_v().contains_key(i)
                        && self.outs_of(a).contains(self.links_v()[i])
                        && self.ins_v()[i].owner.raw() == b;
                    assert(self.ins_v().contains_key(i));
                }
                assert forall|x: u64| self.sort_domain(filter).contains(x) implies nodes.contains(x) by {
                    lemma_closed_holds_reached(rel, seeds, nodes, x);
                }
            },
            None => {},
        }
    }

    /// The node stored under `id`, if any.
    pub fn node(&self, id: NodeID) -> (r: Option<NodeKind>)
        ensures
            r == self.nodes_v().get(id.raw()),
    {
        match self.nodes.get(id.to_raw()) {
            Some(n) => Some(*n),
            None => None,
        }
    }

    /// The output socket linked into `input`, if any.
    pub fn source_of(&self, input: InputSocketID) -> (r: Option<OutputSocketID>)
        ensures
            r == self.links_v().get(input.raw()),
    {
        match self.links.get(input.to_raw()) {
            Some(o) => Some(*o),
            None => None,
        }
    }

    /// The data kind of output socket `output`, if it is registered.
    pub fn output_kind(&self, output: OutputSocketID) -> (r: Option<DataKind>)
        ensures
            r == if self.outs_v().contains_key(output.raw()) {
                Some(self.outs_v()[output.raw()].kind)
            } else {
                None::<DataKind>
            },
    {
        match self.output_sockets.get(output.to_raw()) {
            Some(meta) => Some(meta.kind),
            None => None,
        }
    }

    /// The number of nodes.
    pub fn node_count(&self) -> (r: usize)
        ensures
            r == self.nodes_v().len(),
    {
        self.nodes.len()
    }

    /// The number of registered input sockets.
    pub fn input_count(&self) -> (r: usize)
        ensures
            r == self.ins_v().len(),
    {
        self.input_sockets.len()
    }

    /// The number of registered output sockets.
    pub fn output_count(&self) -> (r: usize)
        ensures
            r == self.outs_v().len(),
    {
        self.output_sockets.len()
    }

    /// Whether `id` is a node of the graph.
    pub fn contains_node(&self, id: NodeID) -> (r: bool)
        ensures
            r == self.nodes_v().contains_key(id.raw()),
    {
        self.nodes.get(id.to_raw()).is_some()
    }

    /// Whether `id` is a registered input socket.
    pub fn contains_input(&self, id: InputSocketID) -> (r: bool)
        ensures
            r == self.ins_v().contains_key(id.raw()),
    {
        self.input_sockets.get(id.to_raw()).is_some()
    }

    /// Whether `id` is a registered output socket.
    pub fn contains_output(&self, id: OutputSocketID) -> (r: bool)
        ensures
            r == self.outs_v().contains_key(id.raw()),
    {
        self.output_sockets.get(id.to_raw()).is_some()
    }

    /// Whether every link comes from a registered output socket.
    pub fn check_links_closed(&self) -> (r: bool)
        ensures
            r == self.links_closed(),
    {
        let entries = self.links.entries();
        let mut i: usize = 0;
        while i < entries.len()
            invariant
                0 <= i <= entries.len(),
                forall|a: int| 0 <= a < entries@.len() ==> self.links_v().contains_key(#[trigger] entries@[a].0)
                    && self.links_v()[entries@[a].0] == entries@[a].1,
                forall|k: u64| self.links_v().contains_key(k) ==> exists|a: int| 0 <= a < entries@.len() && #[trigger] entries@[a].0 == k,
                forall|a: int| 0 <= a < i ==> self.outs_v().contains_key(#[trigger] entries@[a].1.raw()),
            decreases entries.len() - i,
        {
            if self.output_sockets.get(entries[i].1.to_raw()).is_none() {
                proof {
                    assert(self.links_v().contains_key(entries@[i as int].0));
                }
                return false;
            }
            i = i + 1;
        }
        proof {
            assert forall|k: u64| #[trigger] self.links_v().contains_key(k) implies self.outs_v().contains_key(self.links_v()[k].raw()) by {
                let a = choose|a: int| 0 <= a < entries@.len() && #[trigger] entries@[a].0 == k;
                assert(self.outs_v().contains_key(entries@[a].1.raw()));
            }
        }
        true
    }

    /// A copy of this graph.
    pub fn duplicate(&self) -> (r: Self)
        ensures
            r.master_node_id == self.master_node_id,
            r.nodes_v() == self.nodes_v(),
            r.ins_v() == self.ins_v(),
            r.outs_v() == self.outs_v(),
            r.node_ins_v() == self.node_ins_v(),
            r.node_outs_v() == self.node_outs_v(),
            r.links_v() == self.links_v(),
    {
        NodeGraph {
            master_node_id: self.master_node_id,
            nodes: self.nodes.duplicate(),
            input_sockets: self.input_sockets.duplicate(),
            output_sockets: self.output_sockets.duplicate(),
            node_input_sockets: self.node_input_sockets.duplicate(),
            node_output_sockets: self.node_output_sockets.duplicate(),
            links: self.links.duplicate(),
        }
    }

    /// There is room in the slot maps for a node of kind `k`.
    pub open spec fn has_room_for(&self, k: NodeKind) -> bool {
        &&& self.nodes_v().len() < slot_limit()
        &&& self.ins_v().len() + input_shape(k).len() <= slot_limit()
        &&& self.outs_v().len() + output_shape(k).len() <= slot_limit()
    }
}

} // verus!
