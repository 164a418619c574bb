//! Counting facts behind the topological sort of the flow graph.
//!
//! The sort works on node positions `0..n` and on the list `e` of edges
//! `(from, to)` between them, one per link, duplicates included.
use vstd::prelude::*;

verus! {

/// The number of edges of `e` into `v` whose source is not in `done`.
pub open spec fn pending_into(e: Seq<(int, int)>, v: int, done: Set<int>) -> nat
    decreases e.len(),
{
    if e.len() == 0 {
        0
    } else {
        pending_into(e.drop_last(), v, done) + if e.last().1 == v && !done.contains(e.last().0) {
            1nat
        } else {
            0nat
        }
    }
}

/// The targets of the edges of `e` out of `a`, in order.
pub open spec fn targets_of(e: Seq<(int, int)>, a: int) -> Seq<int>
    decreases e.len(),
{
    if e.len() == 0 {
        Seq::empty()
    } else if e.last().0 == a {
        targets_of(e.drop_last(), a).push(e.last().1)
    } else {
        targets_of(e.drop_last(), a)
    }
}

/// The number of times `w` occurs in `s`.
pub open spec fn occurrences(s: Seq<int>, w: int) -> nat
    decreases s.len(),
{
    if s.len() == 0 {
        0
    } else {
        occurrences(s.drop_last(), w) + if s.last() == w { 1nat } else { 0nat }
    }
}

/// Marking `a` done takes away exactly the edges out of `a`.
pub proof fn lemma_pending_split(e: Seq<(int, int)>, v: int, done: Set<int>, a: int)
    requires
        !done.contains(a),
    ensures
        pending_into(e, v, done) == pending_into(e, v, done.insert(a)) + occurrences(targets_of(e, a), v),
    decreases e.len(),
{
    if e.len() > 0 {
        lemma_pending_split(e.drop_last(), v, done, a);
        let t = targets_of(e.drop_last(), a);
        if e.last().0 == a {
            assert(targets_of(e, a).drop_last() == t);
        }
    }
}

/// Some edge into `v` has its source outside `done`, when any is counted.
pub proof fn lemma_pending_witness(e: Seq<(int, int)>, v: int, done: Set<int>)
    requires
        pending_into(e, v, done) > 0,
    ensures
        exists|k: int| 0 <= k < e.len() && (#[trigger] e[k]).1 == v && !done.contains(e[k].0),
    decreases e.len(),
{
    if e.last().1 == v && !done.contains(e.last().0) {
        assert(e[e.len() - 1] == e.last());
    } else {
        lemma_pending_witness(e.drop_last(), v, done);
        let k = choose|k: int| 0 <= k < e.drop_last().len() && (#[trigger] e.drop_last()[k]).1 == v
            && !done.contains(e.drop_last()[k].0);
        assert(e[k] == e.drop_last()[k]);
    }
}

/// With nothing counted, every edge into `v` has its source in `done`.
pub proof fn lemma_pending_none(e: Seq<(int, int)>, v: int, done: Set<int>)
    requires
        pending_into(e, v, done) == 0,
    ensures
        forall|k: int| 0 <= k < e.len() && (#[trigger] e[k]).1 == v ==> done.contains(e[k].0),
    decreases e.len(),
{
    if e.len() > 0 {
        lemma_pending_none(e.drop_last(), v, done);
        assert forall|k: int| 0 <= k < e.len() && (#[trigger] e[k]).1 == v implies done.contains(e[k].0) by {
            if k < e.len() - 1 {
                assert(e[k] == e.drop_last()[k]);
            }
        }
    }
}

/// The count never exceeds the number of edges.
pub proof fn lemma_pending_bound(e: Seq<(int, int)>, v: int, done: Set<int>)
    ensures
        pending_into(e, v, done) <= e.len(),
    decreases e.len(),
{
    if e.len() > 0 {
        lemma_pending_bound(e.drop_last(), v, done);
    }
}

/// The targets of edges lie among the edges' targets.
pub proof fn lemma_targets_in_range(e: Seq<(int, int)>, a: int, n: int)
    requires
        forall|k: int| 0 <= k < e.len() ==> 0 <= (#[trigger] e[k]).1 < n,
    ensures
        forall|k: int| 0 <= k < targets_of(e, a).len() ==> 0 <= #[trigger] targets_of(e, a)[k] < n,
    decreases e.len(),
{
    if e.len() > 0 {
        assert forall|k: int| 0 <= k < e.drop_last().len() implies 0 <= (#[trigger] e.drop_last()[k]).1 < n by {
            assert(e.drop_last()[k] == e[k]);
        }
        lemma_targets_in_range(e.drop_last(), a, n);
        assert(e[e.len() - 1] == e.last());
        let t = targets_of(e.drop_last(), a);
        assert forall|k: int| 0 <= k < targets_of(e, a).len() implies 0 <= #[trigger] targets_of(e, a)[k] < n by {
            if e.last().0 == a {
                if k < t.len() {
                    assert(targets_of(e, a)[k] == t[k]);
                }
            }
        }
    }
}

/// A prefix holds no more occurrences than the whole.
pub proof fn lemma_occurrences_prefix(s: Seq<int>, w: int, k: int)
    requires
        0 <= k <= s.len(),
    ensures
        occurrences(s.take(k), w) <= occurrences(s, w),
    decreases s.len(),
{
    if k < s.len() {
        lemma_occurrences_prefix(s.drop_last(), w, k);
        assert(s.drop_last().take(k) == s.take(k));
    } else {
        assert(s.take(k) == s);
    }
}

/// One more element of the prefix adds its own occurrence.
pub proof fn lemma_occurrences_step(s: Seq<int>, w: int, k: int)
    requires
        0 <= k < s.len(),
    ensures
        occurrences(s.take(k + 1), w) == occurrences(s.take(k), w) + if s[k] == w { 1nat } else { 0nat },
{
    assert(s.take(k + 1).drop_last() == s.take(k));
}

/// A sequence with one more element holds exactly that element besides.
pub proof fn lemma_push_contains(s: Seq<int>, x: int, v: int)
    ensures
        s.push(x).contains(v) <==> (s.contains(v) || v == x),
{
    if s.contains(v) {
        let k = choose|k: int| 0 <= k < s.len() && s[k] == v;
        assert(s.push(x)[k] == v);
    }
    if v == x {
        assert(s.push(x)[s.len() as int] == v);
    }
    if s.push(x).contains(v) {
        let k = choose|k: int| 0 <= k < s.push(x).len() && s.push(x)[k] == v;
        if k < s.len() {
            assert(s[k] == v);
        }
    }
}

/// Distinct positions below `n` number at most `n`, and `n` of them cover
/// every position.
/// Position `v` still waits on an edge from a position that `q` does not
/// hold.
pub open spec fn blocked(e: Seq<(int, int)>, q: Seq<int>, v: int) -> bool {
    exists|m: int| 0 <= m < e.len() && (#[trigger] e[m]).1 == v && !q.contains(e[m].0)
}

pub proof fn lemma_positions_bound(q: Seq<int>, n: int)
    requires
        0 <= n,
        q.no_duplicates(),
        forall|k: int| 0 <= k < q.len() ==> 0 <= #[trigger] q[k] < n,
    ensures
        q.len() <= n,
        q.len() == n ==> forall|v: int| 0 <= v < n ==> q.contains(v),
{
    let range = vstd::set_lib::set_int_range(0, n);
    vstd::set_lib::lemma_int_range(0, n);
    q.unique_seq_to_set();
    assert(q.to_set().subset_of(range));
    vstd::set_lib::lemma_len_subset(q.to_set(), range);
    if q.len() == n {
        vstd::set_lib::lemma_subset_equality(q.to_set(), range);
        assert forall|v: int| 0 <= v < n implies q.contains(v) by {
            assert(range.contains(v));
            assert(q.to_set().contains(v));
        }
    }
}

} // verus!
