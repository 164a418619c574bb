//! Compiled schedules: the order in which nodes run per block, and the
//! buffer slots they read and write.
use vstd::prelude::*;
use std::collections::HashMap;
use crate::arena::slot_limit;
use crate::ids::{InputSocketID, NodeID};
use crate::model::graph::{node_raws, output_raws, NodeGraph};
use crate::model::nodes::NodeKind;

verus! {

broadcast use crate::ids::group_id_lemmas;

/// One transformation on a block in a compiled schedule.
#[derive(Clone, Debug)]
pub struct ScheduleStep {
    /// The node that defines what this step does.
    pub node: NodeKind,
    /// The identifier of `node`.
    pub node_id: NodeID,
    /// The slots this step reads, one per input socket of the node.
    pub input_slots: Vec<usize>,
    /// The slots this step writes, one per output socket of the node.
    pub output_slots: Vec<usize>,
}

/// The steps to run per block, in order; how many buffer slots they use;
/// and the slot fed to the audio output.
#[derive(Clone, Debug)]
pub struct CompiledSchedule {
    pub steps: Vec<ScheduleStep>,
    pub buffer_count: usize,
    pub capture_slot: usize,
}

/// The nodes a sequence of steps runs, in order, by integer form.
pub open spec fn step_nodes(steps: Seq<ScheduleStep>) -> Seq<u64> {
    steps.map_values(|s: ScheduleStep| s.node_id.raw())
}

/// The first slot given to the outputs of `order[i]`: slot 0 is kept for
/// silence, and each node before it takes one slot per output socket.
pub open spec fn first_slot(g: NodeGraph, order: Seq<u64>, i: int) -> int
    decreases i,
{
    if i <= 0 {
        1
    } else {
        first_slot(g, order, i - 1) + g.outs_of(order[i - 1]).len()
    }
}

/// Output socket `o` is the `p`-th output of the `k`-th node of `order`.
pub open spec fn listed_at(g: NodeGraph, order: Seq<u64>, k: int, p: int, o: u64) -> bool {
    &&& 0 <= k < order.len()
    &&& 0 <= p < g.outs_of(order[k]).len()
    &&& g.outs_of(order[k])[p].raw() == o
}

/// The slot of each output socket of the nodes of `order`.
pub open spec fn slot_table(g: NodeGraph, order: Seq<u64>) -> Map<u64, int> {
    Map::new(
        |o: u64| exists|k: int, p: int| listed_at(g, order, k, p, o),
        |o: u64| {
            let (k, p) = choose|k: int, p: int| listed_at(g, order, k, p, o);
            first_slot(g, order, k) + p
        },
    )
}

/// The slot that feeds input socket `s`: that of the output linked into it,
/// or the silent slot 0 when it is unlinked or fed from outside `order`.
pub open spec fn input_slot(g: NodeGraph, order: Seq<u64>, s: u64) -> int {
    if g.links_v().contains_key(s) && slot_table(g, order).contains_key(g.links_v()[s].raw()) {
        slot_table(g, order)[g.links_v()[s].raw()]
    } else {
        0
    }
}

/// `step` runs the `k`-th node of `order`, reading and writing the slots
/// that the layout of `order` gives it.
pub open spec fn step_ok(g: NodeGraph, order: Seq<u64>, k: int, step: ScheduleStep) -> bool {
    let n = order[k];
    &&& step.node_id.raw() == n
    &&& step.node == g.nodes_v()[n]
    &&& step.input_slots@.len() == g.ins_of(n).len()
    &&& forall|j: int| 0 <= j < g.ins_of(n).len()
        ==> #[trigger] step.input_slots@[j] == input_slot(g, order, g.ins_of(n)[j].raw())
    &&& step.output_slots@.len() == g.outs_of(n).len()
    &&& forall|j: int| 0 <= j < g.outs_of(n).len() ==> #[trigger] step.output_slots@[j] == first_slot(g, order, k) + j
}

/// The capture node `c` lies in `domain` and has an output socket.
pub open spec fn can_capture(g: NodeGraph, domain: Set<u64>, c: u64) -> bool {
    domain.contains(c) && g.outs_of(c).len() > 0
}

/// Each node takes its outputs' slots after those of the nodes before it.
pub proof fn lemma_first_slot_mono(g: NodeGraph, order: Seq<u64>, i: int, j: int)
    requires
        0 <= i <= j,
    ensures
        first_slot(g, order, i) <= first_slot(g, order, j),
        first_slot(g, order, i) >= 1,
    decreases j,
{
    if i < j {
        lemma_first_slot_mono(g, order, i, j - 1);
    } else if i > 0 {
        lemma_first_slot_mono(g, order, i - 1, i - 1);
    }
}

/// In a well-formed graph, an output socket is listed under one node of a
/// duplicate-free order, at one position.
pub proof fn lemma_listed_unique(g: NodeGraph, order: Seq<u64>, k1: int, p1: int, k2: int, p2: int, o: u64)
    requires
        g.wf(),
        order.no_duplicates(),
        listed_at(g, order, k1, p1, o),
        listed_at(g, order, k2, p2, o),
    ensures
        k1 == k2,
        p1 == p2,
{
    let n1 = order[k1];
    let n2 = order[k2];
    assert(g.node_outs_v().contains_key(n1));
    assert(g.node_outs_v().contains_key(n2));
    assert(g.outs_v()[g.node_outs_v()[n1][p1].raw()].owner.raw() == n1);
    assert(g.outs_v()[g.node_outs_v()[n2][p2].raw()].owner.raw() == n2);
    assert(g.node_outs_v()[n1][p1].raw() == g.node_outs_v()[n2][p2].raw());
    assert(k1 == k2);
    assert(g.node_outs_v()[n1][p1] == g.node_outs_v()[n1][p2]);
}

/// In a well-formed graph, the slot of an output socket of the `k`-th node
/// of a duplicate-free order is the node's first slot plus its position.
pub proof fn lemma_slot_of_listed(g: NodeGraph, order: Seq<u64>, k: int, p: int)
    requires
        g.wf(),
        order.no_duplicates(),
        0 <= k < order.len(),
        0 <= p < g.outs_of(order[k]).len(),
    ensures
        slot_table(g, order).contains_key(g.outs_of(order[k])[p].raw()),
        slot_table(g, order)[g.outs_of(order[k])[p].raw()] == first_slot(g, order, k) + p,
{
    let o = g.outs_of(order[k])[p].raw();
    assert(listed_at(g, order, k, p, o));
    let (k2, p2) = choose|k2: int, p2: int| listed_at(g, order, k2, p2, o);
    lemma_listed_unique(g, order, k, p, k2, p2, o);
}

/// The capture node's first output has a slot exactly when the node is
/// among those ordered and has an output.
pub proof fn lemma_capture_slot(g: NodeGraph, order: Seq<u64>, c: u64)
    requires
        g.wf(),
        order.no_duplicates(),
    ensures
        (g.outs_of(c).len() > 0 && slot_table(g, order).contains_key(g.outs_of(c)[0].raw()))
            <==> can_capture(g, order.to_set(), c),
{
    if g.outs_of(c).len() > 0 {
        let o = g.outs_of(c)[0].raw();
        if slot_table(g, order).contains_key(o) {
            let (k, p) = choose|k: int, p: int| listed_at(g, order, k, p, o);
            let n = order[k];
            assert(g.node_outs_v().contains_key(n));
            assert(g.node_outs_v().contains_key(c));
            assert(g.outs_v()[g.node_outs_v()[n][p].raw()].owner.raw() == n);
            assert(g.outs_v()[g.node_outs_v()[c][0].raw()].owner.raw() == c);
            assert(order.to_set().contains(n));
        }
        if order.to_set().contains(c) {
            let k = choose|k: int| 0 <= k < order.len() && order[k] == c;
            lemma_slot_of_listed(g, order, k, 0);
        }
    }
}

/// The slot of each output socket of the nodes of `order`, and the number
/// of slots used (slot 0 included).
pub fn slot_layout(g: &NodeGraph, order: &Vec<NodeID>) -> (r: (HashMap<u64, usize>, usize))
    requires
        g.wf(),
        node_raws(order@).no_duplicates(),
    ensures
        forall|o: u64| #[trigger] r.0@.contains_key(o) <==> slot_table(*g, node_raws(order@)).contains_key(o),
        forall|o: u64| #[trigger] r.0@.contains_key(o) ==> r.0@[o] == slot_table(*g, node_raws(order@))[o],
        r.1 == first_slot(*g, node_raws(order@), order@.len() as int),
{
    broadcast use vstd::std_specs::hash::group_hash_axioms;
    let ghost ord = node_raws(order@);
    let ghost gg = *g;
    let mut table: HashMap<u64, usize> = HashMap::new();
    let mut count: usize = 1;
    let ghost mut used: Set<u64> = Set::empty();
    let mut i: usize = 0;
    while i < order.len()
        invariant
            g.wf(),
            gg == *g,
            ord == node_raws(order@),
            ord.no_duplicates(),
            0 <= i <= order.len(),
            count == first_slot(gg, ord, i as int),
            used.finite(),
            used.subset_of(g.outs_v().dom()),
            used.len() + 1 == count,
            table@.dom() == used,
            forall|o: u64| #[trigger] used.contains(o) <==> exists|k: int, p: int| 0 <= k < i && listed_at(gg, ord, k, p, o),
            forall|k: int, p: int| 0 <= k < i && 0 <= p < g.outs_of(ord[k]).len()
                ==> table@[#[trigger] g.outs_of(ord[k])[p].raw()] == first_slot(gg, ord, k) + p,
        decreases order.len() - i,
    {
        let outs = g.outputs_of(order[i]);
        let ghost n = ord[i as int];
        proof {
            assert(ord[i as int] == order@[i as int].raw());
        }
        let mut p: usize = 0;
        while p < outs.len()
            invariant
                g.wf(),
                gg == *g,
                ord == node_raws(order@),
                ord.no_duplicates(),
                0 <= i < order.len(),
                n == ord[i as int],
                outs@ == g.outs_of(n),
                0 <= p <= outs.len(),
                count == first_slot(gg, ord, i as int) + p,
                used.finite(),
                used.subset_of(g.outs_v().dom()),
                used.len() + 1 == count,
                table@.dom() == used,
                forall|o: u64| #[trigger] used.contains(o) <==> exists|k: int, q: int| listed_at(gg, ord, k, q, o)
                    && (k < i || (k == i && q < p)),
                forall|k: int, q: int| 0 <= k < i && 0 <= q < g.outs_of(ord[k]).len()
                    ==> table@[#[trigger] g.outs_of(ord[k])[q].raw()] == first_slot(gg, ord, k) + q,
                forall|q: int| 0 <= q < p ==> table@[#[trigger] g.outs_of(n)[q].raw()] == first_slot(gg, ord, i as int) + q,
            decreases outs.len() - p,
        {
            let x = outs[p].to_raw();
            proof {
                assert(listed_at(gg, ord, i as int, p as int, x));
                if used.contains(x) {
                    let (k, q) = choose|k: int, q: int| listed_at(gg, ord, k, q, x) && (k < i || (k == i && q < p));
                    lemma_listed_unique(gg, ord, k, q, i as int, p as int, x);
                }
                assert(g.node_outs_v().contains_key(n));
                assert(g.node_outs_v()[n][p as int].raw() == x);
                assert(g.outs_v().contains_key(x));
                vstd::set_lib::lemma_len_subset(used.insert(x), g.outs_v().dom());
            }
            table.insert(x, count);
            proof {
                used = used.insert(x);
                assert forall|o: u64| #[trigger] used.contains(o) <==> exists|k: int, q: int| listed_at(gg, ord, k, q, o)
                    && (k < i || (k == i && q < p + 1)) by {
                    if o == x {
                        assert(listed_at(gg, ord, i as int, p as int, x));
                    }
                }
                assert forall|k: int, q: int| 0 <= k < i && 0 <= q < g.outs_of(ord[k]).len()
                    implies table@[#[trigger] g.outs_of(ord[k])[q].raw()] == first_slot(gg, ord, k) + q by {
                    let o = g.outs_of(ord[k])[q].raw();
                    assert(listed_at(gg, ord, k, q, o));
                    if o == x {
                        lemma_listed_unique(gg, ord, k, q, i as int, p as int, x);
                    }
                }
                assert forall|q: int| 0 <= q < p + 1 implies table@[#[trigger] g.outs_of(n)[q].raw()]
                    == first_slot(gg, ord, i as int) + q by {
                    if q < p {
                        assert(listed_at(gg, ord, i as int, q, g.outs_of(n)[q].raw()));
                        if g.outs_of(n)[q].raw() == x {
                            lemma_listed_unique(gg, ord, i as int, q, i as int, p as int, x);
                        }
                    }
                }
            }
            count = count + 1;
            p = p + 1;
        }
        proof {
            assert forall|o: u64| #[trigger] used.contains(o) <==> exists|k: int, q: int| 0 <= k < i + 1
                && listed_at(gg, ord, k, q, o) by {
                if exists|k: int, q: int| 0 <= k < i + 1 && listed_at(gg, ord, k, q, o) {
                    let (k, q) = choose|k: int, q: int| 0 <= k < i + 1 && listed_at(gg, ord, k, q, o);
                    assert(listed_at(gg, ord, k, q, o) && (k < i || (k == i && q < p)));
                }
            }
        }
        i = i + 1;
    }
    proof {
        assert forall|o: u64| #[trigger] table@.contains_key(o) <==> slot_table(gg, ord).contains_key(o) by {
            if slot_table(gg, ord).contains_key(o) {
                let (k, q) = choose|k: int, q: int| listed_at(gg, ord, k, q, o);
                assert(0 <= k < i && listed_at(gg, ord, k, q, o));
            }
        }
        assert forall|o: u64| #[trigger] table@.contains_key(o) implies table@[o] == slot_table(gg, ord)[o] by {
            let (k, q) = choose|k: int, q: int| 0 <= k < i && listed_at(gg, ord, k, q, o);
            lemma_slot_of_listed(gg, ord, k, q);
        }
    }
    (table, count)
}

/// The slots feeding the input sockets `ins`, by the slot table `table` of
/// `order`.
fn input_slots_of(g: &NodeGraph, order: Ghost<Seq<u64>>, table: &HashMap<u64, usize>, ins: &[InputSocketID]) -> (r: Vec<usize>)
    requires
        g.wf(),
        forall|o: u64| #[trigger] table@.contains_key(o) <==> slot_table(*g, order@).contains_key(o),
        forall|o: u64| #[trigger] table@.contains_key(o) ==> table@[o] == slot_table(*g, order@)[o],
    ensures
        r@.len() == ins@.len(),
        forall|j: int| 0 <= j < ins@.len() ==> #[trigger] r@[j] == input_slot(*g, order@, ins@[j].raw()),
{
    broadcast use vstd::std_specs::hash::group_hash_axioms;
    let mut r: Vec<usize> = Vec::new();
    let mut j: usize = 0;
    while j < ins.len()
        invariant
            g.wf(),
            forall|o: u64| #[trigger] table@.contains_key(o) <==> slot_table(*g, order@).contains_key(o),
            forall|o: u64| #[trigger] table@.contains_key(o) ==> table@[o] == slot_table(*g, order@)[o],
            0 <= j <= ins.len(),
            r@.len() == j,
            forall|q: int| 0 <= q < j ==> #[trigger] r@[q] == input_slot(*g, order@, ins@[q].raw()),
        decreases ins.len() - j,
    {
        let slot = match g.links.get(ins[j].to_raw()) {
            Some(src) => match table.get(&src.to_raw()) {
                Some(s) => *s,
                None => 0,
            },
            None => 0,
        };
        r.push(slot);
        j = j + 1;
    }
    r
}

/// The slots written by the `k`-th node of `order`: one per output socket,
/// counting up from `first`.
fn output_slots_of(count: usize, first: usize) -> (r: Vec<usize>)
    requires
        first + count <= usize::MAX,
    ensures
        r@.len() == count,
        forall|j: int| 0 <= j < count ==> #[trigger] r@[j] == first + j,
{
    let mut r: Vec<usize> = Vec::new();
    let mut j: usize = 0;
    while j < count
        invariant
            first + count <= usize::MAX,
            0 <= j <= count,
            r@.len() == j,
            forall|q: int| 0 <= q < j ==> #[trigger] r@[q] == first + q,
        decreases count - j,
    {
        r.push(first + j);
        j = j + 1;
    }
    r
}

/// One step per node of `order`, in order, with the slots of the layout
/// whose table is `table` and whose slot count is `total`.
pub fn build_steps(g: &NodeGraph, order: &Vec<NodeID>, table: &HashMap<u64, usize>, total: usize) -> (r: Vec<ScheduleStep>)
    requires
        g.wf(),
        node_raws(order@).no_duplicates(),
        forall|k: int| 0 <= k < order@.len() ==> g.nodes_v().contains_key(#[trigger] order@[k].raw()),
        forall|o: u64| #[trigger] table@.contains_key(o) <==> slot_table(*g, node_raws(order@)).contains_key(o),
        forall|o: u64| #[trigger] table@.contains_key(o) ==> table@[o] == slot_table(*g, node_raws(order@))[o],
        total == first_slot(*g, node_raws(order@), order@.len() as int),
    ensures
        step_nodes(r@) == node_raws(order@),
        forall|k: int| 0 <= k < r@.len() ==> #[trigger] step_ok(*g, node_raws(order@), k, r@[k]),
{
    let ghost ord = node_raws(order@);
    let mut steps: Vec<ScheduleStep> = Vec::new();
    let mut first: usize = 1;
    let mut k: usize = 0;
    while k < order.len()
        invariant
            g.wf(),
            ord == node_raws(order@),
            ord.no_duplicates(),
            forall|k: int| 0 <= k < order@.len() ==> g.nodes_v().contains_key(#[trigger] order@[k].raw()),
            forall|o: u64| #[trigger] table@.contains_key(o) <==> slot_table(*g, ord).contains_key(o),
            forall|o: u64| #[trigger] table@.contains_key(o) ==> table@[o] == slot_table(*g, ord)[o],
            total == first_slot(*g, ord, order@.len() as int),
            0 <= k <= order.len(),
            first == first_slot(*g, ord, k as int),
            steps@.len() == k,
            step_nodes(steps@) == ord.take(k as int),
            forall|i: int| 0 <= i < k ==> #[trigger] step_ok(*g, ord, i, steps@[i]),
        decreases order.len() - k,
    {
        let node_id = order[k];
        proof {
            assert(ord[k as int] == node_id.raw());
            assert(g.nodes_v().contains_key(order@[k as int].raw()));
            lemma_first_slot_mono(*g, ord, k + 1, order@.len() as int);
        }
        let node = *g.nodes.get(node_id.to_raw()).unwrap();
        let ins = g.inputs_of(node_id);
        let outs = g.outputs_of(node_id);
        let input_slots = input_slots_of(g, Ghost(ord), table, ins);
        let output_slots = output_slots_of(outs.len(), first);
        let step = ScheduleStep { node, node_id, input_slots, output_slots };
        let ghost prev = steps@;
        steps.push(step);
        proof {
            assert(step_ok(*g, ord, k as int, step));
            assert(step_nodes(steps@) =~= ord.take(k + 1)) by {
                assert(step_nodes(steps@) =~= step_nodes(prev).push(node_id.raw()));
                assert(ord.take(k + 1) =~= ord.take(k as int).push(ord[k as int]));
            }
            assert forall|i: int| 0 <= i < k + 1 implies #[trigger] step_ok(*g, ord, i, steps@[i]) by {
                if i < k {
                    assert(steps@[i] == prev[i]);
                }
            }
        }
        first = first + outs.len();
        k = k + 1;
    }
    proof {
        assert(ord.take(k as int) =~= ord);
    }
    steps
}

/// The outputs of the `k`-th node of `order` take the slots just below
/// the first slot of the next node.
pub proof fn lemma_first_slot_step(g: NodeGraph, order: Seq<u64>, k: int, j: int)
    requires
        0 <= k < order.len(),
        0 <= j < g.outs_of(order[k]).len(),
    ensures
        first_slot(g, order, k) + j < first_slot(g, order, k + 1),
        first_slot(g, order, k + 1) <= first_slot(g, order, order.len() as int),
{
    lemma_first_slot_mono(g, order, k + 1, order.len() as int);
}

/// In a schedule laid out for `order`, every slot that a step writes is a
/// real slot (never the silent slot 0) below the slot count, no two
/// outputs share a slot, and every slot that a step reads is below the
/// slot count.
pub proof fn law_schedule_slots(g: NodeGraph, order: Seq<u64>, steps: Seq<ScheduleStep>)
    requires
        g.wf(),
        order.no_duplicates(),
        steps.len() == order.len(),
        forall|k: int| 0 <= k < order.len() ==> #[trigger] step_ok(g, order, k, steps[k]),
    ensures
        forall|k: int, j: int| 0 <= k < steps.len() && 0 <= j < steps[k].output_slots@.len()
            ==> 1 <= #[trigger] steps[k].output_slots@[j] < first_slot(g, order, order.len() as int),
        forall|k: int, j: int| 0 <= k < steps.len() && 0 <= j < steps[k].input_slots@.len()
            ==> #[trigger] steps[k].input_slots@[j] < first_slot(g, order, order.len() as int),
        forall|k1: int, j1: int, k2: int, j2: int|
            0 <= k1 < steps.len() && 0 <= j1 < steps[k1].output_slots@.len()
            && 0 <= k2 < steps.len() && 0 <= j2 < steps[k2].output_slots@.len()
            && (k1 != k2 || j1 != j2)
            ==> #[trigger] steps[k1].output_slots@[j1] != #[trigger] steps[k2].output_slots@[j2],
{
    let total = first_slot(g, order, order.len() as int);
    assert forall|k: int, j: int| 0 <= k < steps.len() && 0 <= j < steps[k].output_slots@.len()
        implies 1 <= #[trigger] steps[k].output_slots@[j] < total by {
        assert(step_ok(g, order, k, steps[k]));
        lemma_first_slot_step(g, order, k, j);
        lemma_first_slot_mono(g, order, k, k);
    }
    assert forall|k: int, j: int| 0 <= k < steps.len() && 0 <= j < steps[k].input_slots@.len()
        implies #[trigger] steps[k].input_slots@[j] < total by {
        assert(step_ok(g, order, k, steps[k]));
        let s = g.ins_of(order[k])[j].raw();
        lemma_first_slot_mono(g, order, 0, order.len() as int);
        if g.links_v().contains_key(s) && slot_table(g, order).contains_key(g.links_v()[s].raw()) {
            let o = g.links_v()[s].raw();
            let (k2, p) = choose|k2: int, p: int| listed_at(g, order, k2, p, o);
            lemma_slot_of_listed(g, order, k2, p);
            lemma_first_slot_step(g, order, k2, p);
        }
    }
    assert forall|k1: int, j1: int, k2: int, j2: int|
        0 <= k1 < steps.len() && 0 <= j1 < steps[k1].output_slots@.len()
        && 0 <= k2 < steps.len() && 0 <= j2 < steps[k2].output_slots@.len()
        && (k1 != k2 || j1 != j2)
        implies #[trigger] steps[k1].output_slots@[j1] != #[trigger] steps[k2].output_slots@[j2] by {
        assert(step_ok(g, order, k1, steps[k1]));
        assert(step_ok(g, order, k2, steps[k2]));
        lemma_first_slot_step(g, order, k1, j1);
        lemma_first_slot_step(g, order, k2, j2);
        if k1 < k2 {
            lemma_first_slot_mono(g, order, k1 + 1, k2);
        } else if k2 < k1 {
            lemma_first_slot_mono(g, order, k2 + 1, k1);
        }
    }
}

/// The first slots of two orders agree up to `k` when the orders agree up
/// to `k`.
pub proof fn lemma_first_slot_prefix(g: NodeGraph, a: Seq<u64>, b: Seq<u64>, k: int)
    requires
        0 <= k <= a.len(),
        k <= b.len(),
        forall|i: int| 0 <= i < k ==> a[i] == b[i],
    ensures
        first_slot(g, a, k) == first_slot(g, b, k),
    decreases k,
{
    if k > 0 {
        lemma_first_slot_prefix(g, a, b, k - 1);
    }
}

/// Taking the `i`-th node out of an order takes its outputs' slots out of
/// the slot count.
pub proof fn lemma_first_slot_remove(g: NodeGraph, o: Seq<u64>, i: int)
    requires
        0 <= i < o.len(),
    ensures
        first_slot(g, o, o.len() as int) == first_slot(g, o.remove(i), o.len() - 1) + g.outs_of(o[i]).len(),
    decreases o.len(),
{
    let n = o.len() as int;
    let r = o.remove(i);
    if i == n - 1 {
        assert(r =~= o.drop_last());
        lemma_first_slot_prefix(g, o, r, n - 1);
    } else {
        let d = o.drop_last();
        lemma_first_slot_remove(g, d, i);
        assert(r.drop_last() =~= d.remove(i));
        lemma_first_slot_prefix(g, o, d, n - 1);
        lemma_first_slot_prefix(g, r, r.drop_last(), n - 2);
        assert(r[n - 2] == o[n - 1]);
    }
}

/// Any two orders of the same nodes, each without repeats, use the same
/// number of slots.
pub proof fn lemma_first_slot_any_order(g: NodeGraph, a: Seq<u64>, b: Seq<u64>)
    requires
        a.no_duplicates(),
        b.no_duplicates(),
        a.to_set() == b.to_set(),
    ensures
        first_slot(g, a, a.len() as int) == first_slot(g, b, b.len() as int),
    decreases a.len(),
{
    a.unique_seq_to_set();
    b.unique_seq_to_set();
    if a.len() == 0 {
        assert(b.len() == 0);
    } else {
        let x = a.last();
        let a2 = a.drop_last();
        assert(a.to_set().contains(x));
        let i = choose|i: int| 0 <= i < b.len() && b[i] == x;
        let b2 = b.remove(i);
        assert(a2.to_set() =~= b2.to_set()) by {
            assert forall|y: u64| a2.to_set().contains(y) implies b2.to_set().contains(y) by {
                let j = choose|j: int| 0 <= j < a2.len() && a2[j] == y;
                assert(a.to_set().contains(y));
                let jb = choose|jb: int| 0 <= jb < b.len() && b[jb] == y;
                assert(a[j] != a[a.len() - 1]);
                if jb < i {
                    assert(b2[jb] == y);
                } else {
                    assert(jb != i);
                    assert(b2[jb - 1] == y);
                }
            }
            assert forall|y: u64| b2.to_set().contains(y) implies a2.to_set().contains(y) by {
                let j = choose|j: int| 0 <= j < b2.len() && b2[j] == y;
                let jb = if j < i { j } else { j + 1 };
                assert(b[jb] == y);
                assert(jb != i);
                assert(b.to_set().contains(y));
                let ja = choose|ja: int| 0 <= ja < a.len() && a[ja] == y;
                assert(ja != a.len() - 1);
                assert(a2[ja] == y);
            }
        }
        lemma_first_slot_any_order(g, a2, b2);
        lemma_first_slot_remove(g, b, i);
        lemma_first_slot_prefix(g, a, a2, a.len() - 1);
    }
}

/// In a schedule laid out for a topological order, a step that reads a
/// slot other than the silent slot 0 reads a slot that an earlier step
/// writes: every node runs after the nodes that feed it.
pub proof fn law_inputs_read_earlier_outputs(g: NodeGraph, order: Seq<u64>, steps: Seq<ScheduleStep>)
    requires
        g.wf(),
        g.is_topo_order(order.to_set(), order),
        steps.len() == order.len(),
        forall|k: int| 0 <= k < order.len() ==> #[trigger] step_ok(g, order, k, steps[k]),
    ensures
        forall|k: int, j: int| 0 <= k < steps.len() && 0 <= j < steps[k].input_slots@.len()
            && #[trigger] steps[k].input_slots@[j] != 0 ==> exists|k2: int, p: int| 0 <= k2 < k
                && 0 <= p < steps[k2].output_slots@.len() && steps[k2].output_slots@[p] == steps[k].input_slots@[j],
{
    assert forall|k: int, j: int| 0 <= k < steps.len() && 0 <= j < steps[k].input_slots@.len()
        && #[trigger] steps[k].input_slots@[j] != 0 implies exists|k2: int, p: int| 0 <= k2 < k
            && 0 <= p < steps[k2].output_slots@.len() && steps[k2].output_slots@[p] == steps[k].input_slots@[j] by {
        assert(step_ok(g, order, k, steps[k]));
        let n = order[k];
        let s = g.ins_of(n)[j].raw();
        assert(g.links_v().contains_key(s) && slot_table(g, order).contains_key(g.links_v()[s].raw()));
        let o = g.links_v()[s].raw();
        let (k2, p) = choose|k2: int, p: int| listed_at(g, order, k2, p, o);
        lemma_slot_of_listed(g, order, k2, p);
        let n2 = order[k2];
        assert(g.node_outs_v().contains_key(n2));
        assert(g.outs_v()[g.node_outs_v()[n2][p].raw()].owner.raw() == n2);
        assert(g.node_ins_v().contains_key(n));
        assert(g.ins_v()[g.node_ins_v()[n][j].raw()].owner.raw() == n);
        assert(g.link_source(s) == n2 && g.link_target(s) == n);
        assert(g.feeds(order[k2], order[k]));
        assert(step_ok(g, order, k2, steps[k2]));
        assert(steps[k2].output_slots@[p] == steps[k].input_slots@[j]);
    }
}

/// In a schedule laid out for `order`, the `j`-th input of each step reads
/// exactly what is linked into the node's own `j`-th input socket: when
/// the slot is not the silent slot 0, it is the slot written by the output
/// socket linked into that input; and the slot is 0 exactly when no output
/// of an ordered node is linked into that input.
pub proof fn law_input_reads_its_own_link(g: NodeGraph, order: Seq<u64>, steps: Seq<ScheduleStep>)
    requires
        g.wf(),
        order.no_duplicates(),
        steps.len() == order.len(),
        forall|k: int| 0 <= k < order.len() ==> #[trigger] step_ok(g, order, k, steps[k]),
    ensures
        forall|k: int, j: int| 0 <= k < steps.len() && 0 <= j < steps[k].input_slots@.len()
            && #[trigger] steps[k].input_slots@[j] != 0 ==> exists|k2: int, p: int|
                0 <= k2 < steps.len() && 0 <= p < steps[k2].output_slots@.len()
                && #[trigger] steps[k2].output_slots@[p] == steps[k].input_slots@[j]
                && g.links_v().contains_key(g.ins_of(order[k])[j].raw())
                && g.outs_of(order[k2])[p] == g.links_v()[g.ins_of(order[k])[j].raw()],
        forall|k: int, j: int| 0 <= k < steps.len() && 0 <= j < steps[k].input_slots@.len() ==>
            (#[trigger] steps[k].input_slots@[j] == 0 <==> !exists|k2: int, p: int|
                0 <= k2 < order.len() && 0 <= p < g.outs_of(order[k2]).len()
                && g.links_v().contains_key(g.ins_of(order[k])[j].raw())
                && #[trigger] g.outs_of(order[k2])[p] == g.links_v()[g.ins_of(order[k])[j].raw()]),
{
    assert forall|k: int, j: int| 0 <= k < steps.len() && 0 <= j < steps[k].input_slots@.len()
        && #[trigger] steps[k].input_slots@[j] != 0 implies exists|k2: int, p: int|
            0 <= k2 < steps.len() && 0 <= p < steps[k2].output_slots@.len()
            && #[trigger] steps[k2].output_slots@[p] == steps[k].input_slots@[j]
            && g.links_v().contains_key(g.ins_of(order[k])[j].raw())
            && g.outs_of(order[k2])[p] == g.links_v()[g.ins_of(order[k])[j].raw()] by {
        assert(step_ok(g, order, k, steps[k]));
        let s = g.ins_of(order[k])[j].raw();
        assert(g.links_v().contains_key(s) && slot_table(g, order).contains_key(g.links_v()[s].raw()));
        let o = g.links_v()[s].raw();
        let (k2, p) = choose|k2: int, p: int| listed_at(g, order, k2, p, o);
        lemma_slot_of_listed(g, order, k2, p);
        assert(step_ok(g, order, k2, steps[k2]));
        assert(steps[k2].output_slots@[p] == steps[k].input_slots@[j]);
        assert(g.outs_of(order[k2])[p].raw() == g.links_v()[s].raw());
    }
    assert forall|k: int, j: int| 0 <= k < steps.len() && 0 <= j < steps[k].input_slots@.len() implies
        (#[trigger] steps[k].input_slots@[j] == 0 <==> !exists|k2: int, p: int|
            0 <= k2 < order.len() && 0 <= p < g.outs_of(order[k2]).len()
            && g.links_v().contains_key(g.ins_of(order[k])[j].raw())
            && #[trigger] g.outs_of(order[k2])[p] == g.links_v()[g.ins_of(order[k])[j].raw()]) by {
        assert(step_ok(g, order, k, steps[k]));
        let s = g.ins_of(order[k])[j].raw();
        if exists|k2: int, p: int|
            0 <= k2 < order.len() && 0 <= p < g.outs_of(order[k2]).len()
            && g.links_v().contains_key(s)
            && #[trigger] g.outs_of(order[k2])[p] == g.links_v()[s] {
            let (k2, p) = choose|k2: int, p: int|
                0 <= k2 < order.len() && 0 <= p < g.outs_of(order[k2]).len()
                && g.links_v().contains_key(s)
                && #[trigger] g.outs_of(order[k2])[p] == g.links_v()[s];
            lemma_slot_of_listed(g, order, k2, p);
            lemma_first_slot_mono(g, order, k2, k2);
            assert(steps[k].input_slots@[j] == first_slot(g, order, k2) + p);
        } else {
            if g.links_v().contains_key(s) && slot_table(g, order).contains_key(g.links_v()[s].raw()) {
                let o = g.links_v()[s].raw();
                let (k2, p) = choose|k2: int, p: int| listed_at(g, order, k2, p, o);
                assert(g.outs_of(order[k2])[p].raw() == o);
                assert(g.outs_of(order[k2])[p] == g.links_v()[s]);
                assert(false);
            }
        }
    }
}

} // verus!
