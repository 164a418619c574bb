//! Slot-map storage for the project model.
//!
//! The project keeps its nodes, sockets, tracks and clips in `slotmap`
//! slot maps, and per-node socket lists and socket links in `slotmap`
//! secondary maps. Each map sits in a field of a small struct of this
//! module, and the functions here are the only calls into `slotmap`: each
//! makes one call, converting keys to and from their integer form
//! (`KeyData::as_ffi` / `KeyData::from_ffi`). What a map holds is named by a
//! spec function per map type, from integer key to value; the contracts
//! below state what each call does to that, as `slotmap` 1.1's source shows.
//!
//! Facts used throughout, from that source: a key's integer form is its
//! version in the high 32 bits and its slot index in the low 32 bits;
//! `from_ffi` forces the version odd, and occupied slots always carry an odd
//! version, so a key with an odd version round-trips exactly. A slot map
//! hands out, on insert, a key whose slot is vacant, so its index differs
//! from that of every key the map holds; it panics only when every slot
//! short of index `u32::MAX` is occupied. A secondary map keeps one value per
//! slot index.
use vstd::prelude::*;
use slotmap::{DefaultKey, Key, KeyData, SecondaryMap, SlotMap};
use crate::ids::{canonical_key, key_index, null_index, InputSocketID, OutputSocketID};
use crate::model::nodes::NodeKind;
use crate::model::socket::SocketMeta;
use crate::model::track::AudioTrack;
use crate::model::clip::AudioClip;

verus! {

/// The most entries a slot map can hold before an insert panics.
pub const SLOT_LIMIT: usize = 0xFFFF_FFFE;

/// The most entries a slot map can hold before an insert panics.
pub open spec fn slot_limit() -> nat {
    SLOT_LIMIT as nat
}

/// The nodes of a flow graph.
#[verifier::external_body]
pub struct NodeSlots {
    map: SlotMap<DefaultKey, NodeKind>,
}

/// What a `NodeSlots` holds: the value under each key, by the key's integer form.
pub uninterp spec fn node_slots(m: NodeSlots) -> Map<u64, NodeKind>;

impl NodeSlots {
    /// Wraps `SlotMap::with_key`: the new map is empty.
    #[verifier::external_body]
    pub(crate) fn new() -> (r: Self)
        ensures
            node_slots(r).dom().is_empty(),
    {
        NodeSlots { map: SlotMap::with_key() }
    }

    /// Wraps `SlotMap::len`: the number of entries.
    #[verifier::external_body]
    pub(crate) fn len(&self) -> (r: usize)
        ensures
            r == node_slots(*self).len(),
    {
        self.map.len()
    }

    /// Wraps `SlotMap::insert`: `v` is stored under a key not in use, whose
    /// slot index differs from those of all keys held.
    #[verifier::external_body]
    pub(crate) fn insert(&mut self, v: NodeKind) -> (r: u64)
        requires
            node_slots(*old(self)).len() < slot_limit(),
        ensures
            canonical_key(r),
            key_index(r) != null_index(),
            !node_slots(*old(self)).contains_key(r),
            forall|j: u64| node_slots(*old(self)).contains_key(j) ==> key_index(j) != key_index(r),
            node_slots(*final(self)) == node_slots(*old(self)).insert(r, v),
    {
        self.map.insert(v).data().as_ffi()
    }

    /// Wraps `SlotMap::remove`: takes out the value under `k`, if any.
    #[verifier::external_body]
    pub(crate) fn remove(&mut self, k: u64) -> (r: Option<NodeKind>)
        requires
            canonical_key(k),
        ensures
            r == node_slots(*old(self)).get(k),
            node_slots(*final(self)) == node_slots(*old(self)).remove(k),
    {
        self.map.remove(DefaultKey::from(KeyData::from_ffi(k)))
    }

    /// Wraps `SlotMap::get`: the value under `k`, if any.
    #[verifier::external_body]
    pub(crate) fn get(&self, k: u64) -> (r: Option<&NodeKind>)
        requires
            canonical_key(k),
        ensures
            match r {
                Some(v) => node_slots(*self).contains_key(k) && *v == node_slots(*self)[k],
                None => !node_slots(*self).contains_key(k),
            },
    {
        self.map.get(DefaultKey::from(KeyData::from_ffi(k)))
    }

    /// Wraps `SlotMap::keys`, each key in its integer form: every key held,
    /// once each.
    #[verifier::external_body]
    pub(crate) fn keys(&self) -> (r: Vec<u64>)
        ensures
            r@.no_duplicates(),
            forall|i: int| 0 <= i < r@.len() ==> node_slots(*self).contains_key(#[trigger] r@[i]),
            forall|k: u64| node_slots(*self).contains_key(k) ==> r@.contains(k),
    {
        self.map.keys().map(|k| k.data().as_ffi()).collect()
    }

    /// Wraps `SlotMap::clone`: the copy holds the same entries.
    #[verifier::external_body]
    pub(crate) fn duplicate(&self) -> (r: Self)
        ensures
            node_slots(r) == node_slots(*self),
    {
        NodeSlots { map: self.map.clone() }
    }
}

/// The registered sockets of a flow graph (inputs or outputs).
#[verifier::external_body]
pub struct SocketSlots {
    map: SlotMap<DefaultKey, SocketMeta>,
}

/// What a `SocketSlots` holds: the value under each key, by the key's integer form.
pub uninterp spec fn socket_slots(m: SocketSlots) -> Map<u64, SocketMeta>;

impl SocketSlots {
    /// Wraps `SlotMap::with_key`: the new map is empty.
    #[verifier::external_body]
    pub(crate) fn new() -> (r: Self)
        ensures
            socket_slots(r).dom().is_empty(),
    {
        SocketSlots { map: SlotMap::with_key() }
    }

    /// Wraps `SlotMap::len`: the number of entries.
    #[verifier::external_body]
    pub(crate) fn len(&self) -> (r: usize)
        ensures
            r == socket_slots(*self).len(),
    {
        self.map.len()
    }

    /// Wraps `SlotMap::insert`: `v` is stored under a key not in use, whose
    /// slot index differs from those of all keys held.
    #[verifier::external_body]
    pub(crate) fn insert(&mut self, v: SocketMeta) -> (r: u64)
        requires
            socket_slots(*old(self)).len() < slot_limit(),
        ensures
            canonical_key(r),
            key_index(r) != null_index(),
            !socket_slots(*old(self)).contains_key(r),
            forall|j: u64| socket_slots(*old(self)).contains_key(j) ==> key_index(j) != key_index(r),
            socket_slots(*final(self)) == socket_slots(*old(self)).insert(r, v),
    {
        self.map.insert(v).data().as_ffi()
    }

    /// Wraps `SlotMap::remove`: takes out the value under `k`, if any.
    #[verifier::external_body]
    pub(crate) fn remove(&mut self, k: u64) -> (r: Option<SocketMeta>)
        requires
            canonical_key(k),
        ensures
            r == socket_slots(*old(self)).get(k),
            socket_slots(*final(self)) == socket_slots(*old(self)).remove(k),
    {
        self.map.remove(DefaultKey::from(KeyData::from_ffi(k)))
    }

    /// Wraps `SlotMap::get`: the value under `k`, if any.
    #[verifier::external_body]
    pub(crate) fn get(&self, k: u64) -> (r: Option<&SocketMeta>)
        requires
            canonical_key(k),
        ensures
            match r {
                Some(v) => socket_slots(*self).contains_key(k) && *v == socket_slots(*self)[k],
                None => !socket_slots(*self).contains_key(k),
            },
    {
        self.map.get(DefaultKey::from(KeyData::from_ffi(k)))
    }

    /// Wraps `SlotMap::clone`: the copy holds the same entries.
    #[verifier::external_body]
    pub(crate) fn duplicate(&self) -> (r: Self)
        ensures
            socket_slots(r) == socket_slots(*self),
    {
        SocketSlots { map: self.map.clone() }
    }
}

/// The audio tracks of a project.
#[verifier::external_body]
pub struct TrackSlots {
    map: SlotMap<DefaultKey, AudioTrack>,
}

/// What a `TrackSlots` holds: the value under each key, by the key's integer form.
pub uninterp spec fn track_slots(m: TrackSlots) -> Map<u64, AudioTrack>;

impl TrackSlots {
    /// Wraps `SlotMap::with_key`: the new map is empty.
    #[verifier::external_body]
    pub(crate) fn new() -> (r: Self)
        ensures
            track_slots(r).dom().is_empty(),
    {
        TrackSlots { map: SlotMap::with_key() }
    }

    /// Wraps `SlotMap::len`: the number of entries.
    #[verifier::external_body]
    pub(crate) fn len(&self) -> (r: usize)
        ensures
            r == track_slots(*self).len(),
    {
        self.map.len()
    }

    /// Wraps `SlotMap::insert`: `v` is stored under a key not in use, whose
    /// slot index differs from those of all keys held.
    #[verifier::external_body]
    pub(crate) fn insert(&mut self, v: AudioTrack) -> (r: u64)
        requires
            track_slots(*old(self)).len() < slot_limit(),
        ensures
            canonical_key(r),
            key_index(r) != null_index(),
            !track_slots(*old(self)).contains_key(r),
            forall|j: u64| track_slots(*old(self)).contains_key(j) ==> key_index(j) != key_index(r),
            track_slots(*final(self)) == track_slots(*old(self)).insert(r, v),
    {
        self.map.insert(v).data().as_ffi()
    }

    /// Wraps `SlotMap::remove`: takes out the value under `k`, if any.
    #[verifier::external_body]
    pub(crate) fn remove(&mut self, k: u64) -> (r: Option<AudioTrack>)
        requires
            canonical_key(k),
        ensures
            r == track_slots(*old(self)).get(k),
            track_slots(*final(self)) == track_slots(*old(self)).remove(k),
    {
        self.map.remove(DefaultKey::from(KeyData::from_ffi(k)))
    }

    /// Wraps `SlotMap::get`: the value under `k`, if any.
    #[verifier::external_body]
    pub(crate) fn get(&self, k: u64) -> (r: Option<&AudioTrack>)
        requires
            canonical_key(k),
        ensures
            match r {
                Some(v) => track_slots(*self).contains_key(k) && *v == track_slots(*self)[k],
                None => !track_slots(*self).contains_key(k),
            },
    {
        self.map.get(DefaultKey::from(KeyData::from_ffi(k)))
    }

    /// Wraps `SlotMap::get_mut` and `core::mem::replace`: puts `v` under `k`
    /// if `k` is held, and gives back the value it replaced.
    #[verifier::external_body]
    pub(crate) fn replace(&mut self, k: u64, v: AudioTrack) -> (r: Option<AudioTrack>)
        requires
            canonical_key(k),
        ensures
            r == track_slots(*old(self)).get(k),
            track_slots(*final(self)) == if track_slots(*old(self)).contains_key(k) {
                track_slots(*old(self)).insert(k, v)
            } else {
                track_slots(*old(self))
            },
    {
        match self.map.get_mut(DefaultKey::from(KeyData::from_ffi(k))) {
            Some(slot) => Some(core::mem::replace(slot, v)),
            None => None,
        }
    }

    /// Wraps `SlotMap::clone`: the copy holds entries with the same views.
    #[verifier::external_body]
    pub(crate) fn duplicate(&self) -> (r: Self)
        ensures
            track_slots(r).dom() == track_slots(*self).dom(),
            forall|k: u64| #[trigger] track_slots(r).contains_key(k) ==> track_slots(r)[k]@ == track_slots(*self)[k]@,
    {
        TrackSlots { map: self.map.clone() }
    }
}

/// The audio clips of a project.
#[verifier::external_body]
pub struct ClipSlots {
    map: SlotMap<DefaultKey, AudioClip>,
}

/// What a `ClipSlots` holds: the value under each key, by the key's integer form.
pub uninterp spec fn clip_slots(m: ClipSlots) -> Map<u64, AudioClip>;

impl ClipSlots {
    /// Wraps `SlotMap::with_key`: the new map is empty.
    #[verifier::external_body]
    pub(crate) fn new() -> (r: Self)
        ensures
            clip_slots(r).dom().is_empty(),
    {
        ClipSlots { map: SlotMap::with_key() }
    }

    /// Wraps `SlotMap::len`: the number of entries.
    #[verifier::external_body]
    pub(crate) fn len(&self) -> (r: usize)
        ensures
            r == clip_slots(*self).len(),
    {
        self.map.len()
    }

    /// Wraps `SlotMap::insert`: `v` is stored under a key not in use, whose
    /// slot index differs from those of all keys held.
    #[verifier::external_body]
    pub(crate) fn insert(&mut self, v: AudioClip) -> (r: u64)
        requires
            clip_slots(*old(self)).len() < slot_limit(),
        ensures
            canonical_key(r),
            key_index(r) != null_index(),
            !clip_slots(*old(self)).contains_key(r),
            forall|j: u64| clip_slots(*old(self)).contains_key(j) ==> key_index(j) != key_index(r),
            clip_slots(*final(self)) == clip_slots(*old(self)).insert(r, v),
    {
        self.map.insert(v).data().as_ffi()
    }

    /// Wraps `SlotMap::remove`: takes out the value under `k`, if any.
    #[verifier::external_body]
    pub(crate) fn remove(&mut self, k: u64) -> (r: Option<AudioClip>)
        requires
            canonical_key(k),
        ensures
            r == clip_slots(*old(self)).get(k),
            clip_slots(*final(self)) == clip_slots(*old(self)).remove(k),
    {
        self.map.remove(DefaultKey::from(KeyData::from_ffi(k)))
    }

    /// Wraps `SlotMap::get`: the value under `k`, if any.
    #[verifier::external_body]
    pub(crate) fn get(&self, k: u64) -> (r: Option<&AudioClip>)
        requires
            canonical_key(k),
        ensures
            match r {
                Some(v) => clip_slots(*self).contains_key(k) && *v == clip_slots(*self)[k],
                None => !clip_slots(*self).contains_key(k),
            },
    {
        self.map.get(DefaultKey::from(KeyData::from_ffi(k)))
    }

    /// Wraps `SlotMap::get_mut` and `core::mem::replace`: puts `v` under `k`
    /// if `k` is held, and gives back the value it replaced.
    #[verifier::external_body]
    pub(crate) fn replace(&mut self, k: u64, v: AudioClip) -> (r: Option<AudioClip>)
        requires
            canonical_key(k),
        ensures
            r == clip_slots(*old(self)).get(k),
            clip_slots(*final(self)) == if clip_slots(*old(self)).contains_key(k) {
                clip_slots(*old(self)).insert(k, v)
            } else {
                clip_slots(*old(self))
            },
    {
        match self.map.get_mut(DefaultKey::from(KeyData::from_ffi(k))) {
            Some(slot) => Some(core::mem::replace(slot, v)),
            None => None,
        }
    }

    /// Wraps `SlotMap::clone`: the copy holds the same entries.
    #[verifier::external_body]
    pub(crate) fn duplicate(&self) -> (r: Self)
        ensures
            clip_slots(r) == clip_slots(*self),
    {
        ClipSlots { map: self.map.clone() }
    }
}

/// The input sockets of each node, in declaration order.
#[verifier::external_body]
pub struct InputLists {
    map: SecondaryMap<DefaultKey, Vec<InputSocketID>>,
}

/// What a `InputLists` holds: the value under each key, by the key's integer form.
pub uninterp spec fn input_lists(m: InputLists) -> Map<u64, Vec<InputSocketID>>;

impl InputLists {
    /// Wraps `SecondaryMap::new`: the new map is empty.
    #[verifier::external_body]
    pub(crate) fn new() -> (r: Self)
        ensures
            input_lists(r).dom().is_empty(),
    {
        InputLists { map: SecondaryMap::new() }
    }

    /// Wraps `SecondaryMap::insert`, for a key whose slot index no other
    /// held key shares: stores `v` under `k` and gives back what was there.
    #[verifier::external_body]
    pub(crate) fn insert(&mut self, k: u64, v: Vec<InputSocketID>) -> (r: Option<Vec<InputSocketID>>)
        requires
            canonical_key(k),
            key_index(k) != null_index(),
            forall|j: u64| input_lists(*old(self)).contains_key(j) && key_index(j) == key_index(k) ==> j == k,
        ensures
            r == input_lists(*old(self)).get(k),
            input_lists(*final(self)) == input_lists(*old(self)).insert(k, v),
    {
        self.map.insert(DefaultKey::from(KeyData::from_ffi(k)), v)
    }

    /// Wraps `SecondaryMap::remove`: takes out the value under `k`, if any.
    #[verifier::external_body]
    pub(crate) fn remove(&mut self, k: u64) -> (r: Option<Vec<InputSocketID>>)
        requires
            canonical_key(k),
        ensures
            r == input_lists(*old(self)).get(k),
            input_lists(*final(self)) == input_lists(*old(self)).remove(k),
    {
        self.map.remove(DefaultKey::from(KeyData::from_ffi(k)))
    }

    /// Wraps `SecondaryMap::get`: the value under `k`, if any.
    #[verifier::external_body]
    pub(crate) fn get(&self, k: u64) -> (r: Option<&Vec<InputSocketID>>)
        requires
            canonical_key(k),
        ensures
            match r {
                Some(v) => input_lists(*self).contains_key(k) && *v == input_lists(*self)[k],
                None => !input_lists(*self).contains_key(k),
            },
    {
        self.map.get(DefaultKey::from(KeyData::from_ffi(k)))
    }

    /// Wraps `SecondaryMap::clone`: the copy holds the same entries.
    #[verifier::external_body]
    pub(crate) fn duplicate(&self) -> (r: Self)
        ensures
            input_lists(r).map_values(|v: Vec<InputSocketID>| v@) == input_lists(*self).map_values(|v: Vec<InputSocketID>| v@),
    {
        InputLists { map: self.map.clone() }
    }
}

/// The output sockets of each node, in declaration order.
#[verifier::external_body]
pub struct OutputLists {
    map: SecondaryMap<DefaultKey, Vec<OutputSocketID>>,
}

/// What a `OutputLists` holds: the value under each key, by the key's integer form.
pub uninterp spec fn output_lists(m: OutputLists) -> Map<u64, Vec<OutputSocketID>>;

impl OutputLists {
    /// Wraps `SecondaryMap::new`: the new map is empty.
    #[verifier::external_body]
    pub(crate) fn new() -> (r: Self)
        ensures
            output_lists(r).dom().is_empty(),
    {
        OutputLists { map: SecondaryMap::new() }
    }

    /// Wraps `SecondaryMap::insert`, for a key whose slot index no other
    /// held key shares: stores `v` under `k` and gives back what was there.
    #[verifier::external_body]
    pub(crate) fn insert(&mut self, k: u64, v: Vec<OutputSocketID>) -> (r: Option<Vec<OutputSocketID>>)
        requires
            canonical_key(k),
            key_index(k) != null_index(),
            forall|j: u64| output_lists(*old(self)).contains_key(j) && key_index(j) == key_index(k) ==> j == k,
        ensures
            r == output_lists(*old(self)).get(k),
            output_lists(*final(self)) == output_lists(*old(self)).insert(k, v),
    {
        self.map.insert(DefaultKey::from(KeyData::from_ffi(k)), v)
    }

    /// Wraps `SecondaryMap::remove`: takes out the value under `k`, if any.
    #[verifier::external_body]
    pub(crate) fn remove(&mut self, k: u64) -> (r: Option<Vec<OutputSocketID>>)
        requires
            canonical_key(k),
        ensures
            r == output_lists(*old(self)).get(k),
            output_lists(*final(self)) == output_lists(*old(self)).remove(k),
    {
        self.map.remove(DefaultKey::from(KeyData::from_ffi(k)))
    }

    /// Wraps `SecondaryMap::get`: the value under `k`, if any.
    #[verifier::external_body]
    pub(crate) fn get(&self, k: u64) -> (r: Option<&Vec<OutputSocketID>>)
        requires
            canonical_key(k),
        ensures
            match r {
                Some(v) => output_lists(*self).contains_key(k) && *v == output_lists(*self)[k],
                None => !output_lists(*self).contains_key(k),
            },
    {
        self.map.get(DefaultKey::from(KeyData::from_ffi(k)))
    }

    /// Wraps `SecondaryMap::clone`: the copy holds the same entries.
    #[verifier::external_body]
    pub(crate) fn duplicate(&self) -> (r: Self)
        ensures
            output_lists(r).map_values(|v: Vec<OutputSocketID>| v@) == output_lists(*self).map_values(|v: Vec<OutputSocketID>| v@),
    {
        OutputLists { map: self.map.clone() }
    }
}

/// The links of a flow graph: the output socket feeding each linked input socket.
#[verifier::external_body]
pub struct LinkMap {
    map: SecondaryMap<DefaultKey, OutputSocketID>,
}

/// What a `LinkMap` holds: the value under each key, by the key's integer form.
pub uninterp spec fn link_map(m: LinkMap) -> Map<u64, OutputSocketID>;

impl LinkMap {
    /// Wraps `SecondaryMap::new`: the new map is empty.
    #[verifier::external_body]
    pub(crate) fn new() -> (r: Self)
        ensures
            link_map(r).dom().is_empty(),
    {
        LinkMap { map: SecondaryMap::new() }
    }

    /// Wraps `SecondaryMap::insert`, for a key whose slot index no other
    /// held key shares: stores `v` under `k` and gives back what was there.
    #[verifier::external_body]
    pub(crate) fn insert(&mut self, k: u64, v: OutputSocketID) -> (r: Option<OutputSocketID>)
        requires
            canonical_key(k),
            key_index(k) != null_index(),
            forall|j: u64| link_map(*old(self)).contains_key(j) && key_index(j) == key_index(k) ==> j == k,
        ensures
            r == link_map(*old(self)).get(k),
            link_map(*final(self)) == link_map(*old(self)).insert(k, v),
    {
        self.map.insert(DefaultKey::from(KeyData::from_ffi(k)), v)
    }

    /// Wraps `SecondaryMap::remove`: takes out the value under `k`, if any.
    #[verifier::external_body]
    pub(crate) fn remove(&mut self, k: u64) -> (r: Option<OutputSocketID>)
        requires
            canonical_key(k),
        ensures
            r == link_map(*old(self)).get(k),
            link_map(*final(self)) == link_map(*old(self)).remove(k),
    {
        self.map.remove(DefaultKey::from(KeyData::from_ffi(k)))
    }

    /// Wraps `SecondaryMap::get`: the value under `k`, if any.
    #[verifier::external_body]
    pub(crate) fn get(&self, k: u64) -> (r: Option<&OutputSocketID>)
        requires
            canonical_key(k),
        ensures
            match r {
                Some(v) => link_map(*self).contains_key(k) && *v == link_map(*self)[k],
                None => !link_map(*self).contains_key(k),
            },
    {
        self.map.get(DefaultKey::from(KeyData::from_ffi(k)))
    }

    /// Wraps `SecondaryMap::iter`, each key in its integer form: every entry
    /// held, once each.
    #[verifier::external_body]
    pub(crate) fn entries(&self) -> (r: Vec<(u64, OutputSocketID)>)
        ensures
            forall|i: int| 0 <= i < r@.len() ==> link_map(*self).contains_key(#[trigger] r@[i].0)
                && link_map(*self)[r@[i].0] == r@[i].1,
            forall|k: u64| link_map(*self).contains_key(k) ==> exists|i: int| 0 <= i < r@.len() && #[trigger] r@[i].0 == k,
            forall|i: int, j: int| 0 <= i < j < r@.len() ==> r@[i].0 != r@[j].0,
    {
        self.map.iter().map(|(k, v)| (k.data().as_ffi(), *v)).collect()
    }

    /// Wraps `SecondaryMap::clone`: the copy holds the same entries.
    #[verifier::external_body]
    pub(crate) fn duplicate(&self) -> (r: Self)
        ensures
            link_map(r) == link_map(*self),
    {
        LinkMap { map: self.map.clone() }
    }
}

} // verus!
