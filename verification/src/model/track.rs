//! Audio tracks: named timelines of clips, each read by one graph node.
use vstd::prelude::*;
use std::collections::BTreeMap;
use crate::ids::{AudioClipID, NodeID};
use vstd::std_specs::btree::{increasing_seq, spec_btree_map_iter};
use vstd::std_specs::iter::IteratorSpec;
use vstd::std_specs::cmp::OrdSpec;

verus! {

/// An audio track. Its clips are keyed by their start tick.
#[derive(Clone, Debug)]
pub struct AudioTrack {
    pub name: String,
    pub clips: BTreeMap<u64, AudioClipID>,
    pub linked_node_id: Option<NodeID>,
}

impl View for AudioTrack {
    /// Name, clips by start tick, and linked node.
    type V = (Seq<char>, Map<u64, AudioClipID>, Option<NodeID>);

    open spec fn view(&self) -> Self::V {
        (self.name@, self.clips@, self.linked_node_id)
    }
}

impl AudioTrack {
    /// A copy of this track.
    pub fn duplicate(&self) -> (r: Self)
        ensures
            r@ == self@,
    {
        AudioTrack { name: self.name.clone(), clips: self.clips.clone(), linked_node_id: self.linked_node_id }
    }

    /// A new, empty track named `name`, not yet linked to a node.
    pub fn new(name: String) -> (r: Self)
        ensures
            r.name == name,
            r.clips@ == Map::<u64, AudioClipID>::empty(),
            r.linked_node_id is None,
    {
        AudioTrack { name, clips: BTreeMap::new(), linked_node_id: None }
    }
}

/// Every entry of `m`, in increasing order of key.
pub fn entries_in_order<V: Copy>(m: &BTreeMap<u64, V>) -> (r: Vec<(u64, V)>)
    ensures
        r@.len() == m@.len(),
        forall|i: int| 0 <= i < r@.len() ==> m@.contains_key(#[trigger] r@[i].0) && m@[r@[i].0] == r@[i].1,
        forall|k: u64| #[trigger] m@.contains_key(k) ==> exists|i: int| 0 <= i < r@.len() && r@[i].0 == k,
        forall|i: int, j: int| 0 <= i < j < r@.len() ==> r@[i].0 < r@[j].0,
{
    broadcast use vstd::std_specs::btree::group_btree_axioms;
    let ghost v = IteratorSpec::remaining(&spec_btree_map_iter(m));
    let mut r: Vec<(u64, V)> = Vec::new();
    let iter = m.iter();
    proof {
        assert(increasing_seq(v.map_values(|kv: (&u64, &V)| *kv.0)));
    }
    for kv in it: iter
        invariant
            v == IteratorSpec::remaining(&spec_btree_map_iter(m)),
            it.seq() == v,
            r@.len() == it.index(),
            forall|i: int| 0 <= i < r@.len() ==> r@[i].0 == *v[i].0 && r@[i].1 == *v[i].1,
    {
        r.push((*kv.0, *kv.1));
    }
    proof {
        broadcast use vstd::laws_cmp::group_laws_cmp;
        assert(r@.len() == v.len());
        assert forall|i: int| 0 <= i < r@.len() implies m@.contains_key(#[trigger] r@[i].0) && m@[r@[i].0] == r@[i].1 by {
            assert(m@.contains_key(*v[i].0));
        }
        assert forall|k: u64| #[trigger] m@.contains_key(k) implies exists|i: int| 0 <= i < r@.len() && r@[i].0 == k by {
            assert(v.contains((&k, &m@[k])));
            let i = choose|i: int| 0 <= i < v.len() && v[i] == (&k, &m@[k]);
            assert(r@[i].0 == k);
        }
        let keys = v.map_values(|kv: (&u64, &V)| *kv.0);
        assert(vstd::laws_cmp::obeys_cmp::<u64>());
        assert forall|i: int, j: int| 0 <= i < j < r@.len() implies r@[i].0 < r@[j].0 by {
            assert(keys[i].cmp_spec(&keys[j]) is Less);
        }
    }
    r
}

} // verus!
