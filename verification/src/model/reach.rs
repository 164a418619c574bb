//! Reachability along a relation between nodes.
use vstd::prelude::*;
use crate::ids::NodeID;
use crate::model::graph::node_raws;

verus! {

/// `p` is a non-empty walk along `rel`.
pub open spec fn is_path(rel: spec_fn(u64, u64) -> bool, p: Seq<u64>) -> bool {
    &&& p.len() >= 1
    &&& forall|k: int| #![trigger p[k]] 0 <= k < p.len() - 1 ==> rel(p[k], p[k + 1])
}

/// `x` can be reached from one of `seeds` by a walk along `rel`.
pub open spec fn reaches(rel: spec_fn(u64, u64) -> bool, seeds: Set<u64>, x: u64) -> bool {
    exists|p: Seq<u64>| #[trigger] is_path(rel, p) && seeds.contains(p[0]) && p.last() == x
}

/// Every seed reaches itself.
pub proof fn lemma_reaches_seed(rel: spec_fn(u64, u64) -> bool, seeds: Set<u64>, x: u64)
    requires
        seeds.contains(x),
    ensures
        reaches(rel, seeds, x),
{
    let p = seq![x];
    assert(is_path(rel, p));
}

/// One more step along `rel` from a reached node is reached.
pub proof fn lemma_reaches_step(rel: spec_fn(u64, u64) -> bool, seeds: Set<u64>, x: u64, y: u64)
    requires
        reaches(rel, seeds, x),
        rel(x, y),
    ensures
        reaches(rel, seeds, y),
{
    let p = choose|p: Seq<u64>| #[trigger] is_path(rel, p) && seeds.contains(p[0]) && p.last() == x;
    let q = p.push(y);
    assert forall|k: int| #![trigger q[k]] 0 <= k < q.len() - 1 implies rel(q[k], q[k + 1]) by {
        if k < p.len() - 1 {
            assert(q[k] == p[k] && q[k + 1] == p[k + 1]);
        } else {
            assert(q[k] == x && q[k + 1] == y);
        }
    }
    assert(is_path(rel, q));
}

/// Walking backwards along the converse of a relation: if `a` is reached
/// from `b` along `r1`, and every step of `r1` is a step of `r2` reversed,
/// then `b` is reached from `a` along `r2`.
pub proof fn lemma_reaches_converse(r1: spec_fn(u64, u64) -> bool, r2: spec_fn(u64, u64) -> bool, b: u64, a: u64)
    requires
        reaches(r1, set![b], a),
        forall|x: u64, y: u64| #[trigger] r1(x, y) ==> r2(y, x),
    ensures
        reaches(r2, set![a], b),
{
    let p = choose|p: Seq<u64>| #[trigger] is_path(r1, p) && set![b].contains(p[0]) && p.last() == a;
    let q = p.reverse();
    assert forall|k: int| #![trigger q[k]] 0 <= k < q.len() - 1 implies r2(q[k], q[k + 1]) by {
        let n = p.len() as int;
        assert(q[k] == p[n - 1 - k] && q[k + 1] == p[n - 2 - k]);
        assert(r1(p[n - 2 - k], p[(n - 2 - k) + 1]));
    }
    assert(is_path(r2, q));
    assert(q[0] == a && q.last() == b);
    assert(set![a].contains(q[0]));
}

/// A set that holds the seeds and is closed under `rel` holds every node of
/// a walk from a seed.
proof fn lemma_path_in_closed(rel: spec_fn(u64, u64) -> bool, seeds: Set<u64>, s: Set<u64>, p: Seq<u64>)
    requires
        is_path(rel, p),
        seeds.contains(p[0]),
        seeds.subset_of(s),
        forall|a: u64, b: u64| s.contains(a) && #[trigger] rel(a, b) ==> s.contains(b),
    ensures
        s.contains(p.last()),
    decreases p.len(),
{
    if p.len() == 1 {
    } else {
        let q = p.drop_last();
        assert forall|k: int| #![trigger q[k]] 0 <= k < q.len() - 1 implies rel(q[k], q[k + 1]) by {
            assert(q[k] == p[k] && q[k + 1] == p[k + 1]);
        }
        lemma_path_in_closed(rel, seeds, s, q);
        assert(p[p.len() - 2] == q.last());
        assert(rel(p[p.len() - 2], p[p.len() - 1]));
    }
}

/// A set that holds the seeds and is closed under `rel` holds every node
/// reached from them.
pub proof fn lemma_closed_holds_reached(rel: spec_fn(u64, u64) -> bool, seeds: Set<u64>, s: Set<u64>, x: u64)
    requires
        reaches(rel, seeds, x),
        seeds.subset_of(s),
        forall|a: u64, b: u64| s.contains(a) && #[trigger] rel(a, b) ==> s.contains(b),
    ensures
        s.contains(x),
{
    let p = choose|p: Seq<u64>| #[trigger] is_path(rel, p) && seeds.contains(p[0]) && p.last() == x;
    lemma_path_in_closed(rel, seeds, s, p);
}

/// Some entry of `stack` at or after `head` is the node `y`.
pub open spec fn pending(stack: Seq<NodeID>, head: int, y: u64) -> bool {
    exists|k: int| head <= k < stack.len() && #[trigger] stack[k].raw() == y
}

/// The state of a breadth-first walk along `rel` from `seeds`: `stack`
/// holds nodes to visit from `head` on, `result` the nodes visited (`seen`
/// as a set); every node met so far lies in `univ` and is reached; every
/// seed, and every node that a visited node steps to, is visited or still
/// waiting.
#[verifier::opaque]
pub open spec fn walk_state(
    rel: spec_fn(u64, u64) -> bool,
    seeds: Set<u64>,
    univ: Set<u64>,
    stack: Seq<NodeID>,
    head: int,
    seen: Set<u64>,
    result: Seq<NodeID>,
) -> bool {
    &&& univ.finite()
    &&& 0 <= head <= stack.len()
    &&& forall|k: int| 0 <= k < stack.len() ==> univ.contains(#[trigger] stack[k].raw()) && reaches(rel, seeds, stack[k].raw())
    &&& seen == node_raws(result).to_set()
    &&& node_raws(result).no_duplicates()
    &&& seen.subset_of(univ)
    &&& forall|x: u64| #[trigger] seen.contains(x) ==> reaches(rel, seeds, x)
    &&& forall|x: u64, y: u64| #[trigger] seen.contains(x) && #[trigger] rel(x, y) ==> seen.contains(y) || pending(stack, head, y)
    &&& forall|x: u64| #[trigger] seeds.contains(x) ==> seen.contains(x) || pending(stack, head, x)
}

/// The walk starts with the seeds on the stack and nothing visited.
pub proof fn lemma_walk_start(rel: spec_fn(u64, u64) -> bool, univ: Set<u64>, targets: Seq<NodeID>)
    requires
        univ.finite(),
        node_raws(targets).to_set().subset_of(univ),
    ensures
        walk_state(rel, node_raws(targets).to_set(), univ, targets, 0, Set::empty(), Seq::empty()),
{
    reveal(walk_state);
    let seeds = node_raws(targets).to_set();
    assert forall|x: u64| seeds.contains(x) implies pending(targets, 0, x) by {
        let k = choose|k: int| 0 <= k < node_raws(targets).len() && node_raws(targets)[k] == x;
        assert(targets[k].raw() == x);
    }
    assert forall|k: int| 0 <= k < targets.len() implies univ.contains(#[trigger] targets[k].raw())
        && reaches(rel, seeds, targets[k].raw()) by {
        assert(node_raws(targets)[k] == targets[k].raw());
        assert(seeds.contains(targets[k].raw()));
        lemma_reaches_seed(rel, seeds, targets[k].raw());
    }
    assert(node_raws(Seq::<NodeID>::empty()).to_set() =~= Set::empty());
}

/// The walk never visits more nodes than `univ` holds.
pub proof fn lemma_walk_bound(
    rel: spec_fn(u64, u64) -> bool, seeds: Set<u64>, univ: Set<u64>,
    stack: Seq<NodeID>, head: int, seen: Set<u64>, result: Seq<NodeID>,
)
    requires
        walk_state(rel, seeds, univ, stack, head, seen, result),
    ensures
        result.len() <= univ.len(),
        0 <= head <= stack.len(),
        seen == node_raws(result).to_set(),
        forall|k: int| 0 <= k < stack.len() ==> univ.contains(#[trigger] stack[k].raw()),
{
    reveal(walk_state);
    node_raws(result).unique_seq_to_set();
    vstd::set_lib::lemma_len_subset(seen, univ);
}

/// Visiting an already visited node changes nothing but the stack position.
pub proof fn lemma_walk_skip(
    rel: spec_fn(u64, u64) -> bool, seeds: Set<u64>, univ: Set<u64>,
    stack: Seq<NodeID>, head: int, seen: Set<u64>, result: Seq<NodeID>,
)
    requires
        walk_state(rel, seeds, univ, stack, head, seen, result),
        head < stack.len(),
        seen.contains(stack[head].raw()),
    ensures
        walk_state(rel, seeds, univ, stack, head + 1, seen, result),
{
    reveal(walk_state);
    assert forall|x: u64, y: u64| #[trigger] seen.contains(x) && #[trigger] rel(x, y)
        implies seen.contains(y) || pending(stack, head + 1, y) by {
        if !seen.contains(y) {
            let k = choose|k: int| head <= k < stack.len() && #[trigger] stack[k].raw() == y;
        }
    }
    assert forall|x: u64| #[trigger] seeds.contains(x) implies seen.contains(x) || pending(stack, head + 1, x) by {
        if !seen.contains(x) {
            let k = choose|k: int| head <= k < stack.len() && #[trigger] stack[k].raw() == x;
        }
    }
}

/// Visiting a new node `n`, and pushing every node it steps to, keeps the
/// walk's state.
pub proof fn lemma_walk_visit(
    rel: spec_fn(u64, u64) -> bool, seeds: Set<u64>, univ: Set<u64>,
    stack: Seq<NodeID>, head: int, seen: Set<u64>, result: Seq<NodeID>,
    stack2: Seq<NodeID>,
)
    requires
        walk_state(rel, seeds, univ, stack, head, seen, result),
        head < stack.len(),
        !seen.contains(stack[head].raw()),
        stack2.len() >= stack.len(),
        stack2.take(stack.len() as int) == stack,
        forall|k: int| stack.len() <= k < stack2.len() ==> rel(stack[head].raw(), #[trigger] stack2[k].raw())
            && univ.contains(stack2[k].raw()),
        forall|y: u64| #[trigger] rel(stack[head].raw(), y) ==> pending(stack2, stack.len() as int, y),
    ensures
        walk_state(rel, seeds, univ, stack2, head + 1, seen.insert(stack[head].raw()), result.push(stack[head])),
{
    reveal(walk_state);
    let n = stack[head];
    let seen2 = seen.insert(n.raw());
    let result2 = result.push(n);
    assert(node_raws(result2) =~= node_raws(result).push(n.raw()));
    node_raws(result).lemma_push_to_set_commute(n.raw());
    assert forall|k: int| 0 <= k < stack2.len() implies univ.contains(#[trigger] stack2[k].raw())
        && reaches(rel, seeds, stack2[k].raw()) by {
        if k < stack.len() {
            assert(stack2[k] == stack.take(stack.len() as int)[k]);
        } else {
            assert(stack.take(stack.len() as int)[head] == stack2[head]);
            lemma_reaches_step(rel, seeds, n.raw(), stack2[k].raw());
        }
    }
    assert(reaches(rel, seeds, n.raw()));
    assert forall|x: u64, y: u64| #[trigger] seen2.contains(x) && #[trigger] rel(x, y)
        implies seen2.contains(y) || pending(stack2, head + 1, y) by {
        if x == n.raw() {
            let k = choose|k: int| stack.len() <= k < stack2.len() && #[trigger] stack2[k].raw() == y;
        } else if !seen.contains(y) {
            let k = choose|k: int| head <= k < stack.len() && #[trigger] stack[k].raw() == y;
            if k != head {
                assert(stack2[k] == stack.take(stack.len() as int)[k]);
            }
        }
    }
    assert forall|x: u64| #[trigger] seeds.contains(x) implies seen2.contains(x) || pending(stack2, head + 1, x) by {
        if !seen.contains(x) {
            let k = choose|k: int| head <= k < stack.len() && #[trigger] stack[k].raw() == x;
            if k != head {
                assert(stack2[k] == stack.take(stack.len() as int)[k]);
            }
        }
    }
}

/// When the stack is used up, the visited nodes are exactly those reached.
pub proof fn lemma_walk_done(
    rel: spec_fn(u64, u64) -> bool, seeds: Set<u64>, univ: Set<u64>,
    stack: Seq<NodeID>, seen: Set<u64>, result: Seq<NodeID>,
)
    requires
        walk_state(rel, seeds, univ, stack, stack.len() as int, seen, result),
    ensures
        node_raws(result).no_duplicates(),
        node_raws(result).to_set() == Set::new(|x: u64| reaches(rel, seeds, x)),
{
    reveal(walk_state);
    assert forall|a: u64, b: u64| seen.contains(a) && #[trigger] rel(a, b) implies seen.contains(b) by {
        if !seen.contains(b) {
            let k = choose|k: int| stack.len() <= k < stack.len() && #[trigger] stack[k].raw() == b;
        }
    }
    assert forall|x: u64| seeds.contains(x) implies seen.contains(x) by {
        if !seen.contains(x) {
            let k = choose|k: int| stack.len() <= k < stack.len() && #[trigger] stack[k].raw() == x;
        }
    }
    assert forall|x: u64| #[trigger] reaches(rel, seeds, x) implies seen.contains(x) by {
        lemma_closed_holds_reached(rel, seeds, seen, x);
    }
    assert(node_raws(result).to_set() =~= Set::new(|x: u64| reaches(rel, seeds, x)));
}

} // verus!
