//! Identifiers handed out by the slot maps of the project model.
//!
//! Each identifier holds the integer form of a slot-map key. The slot maps
//! only ever hand out keys whose version is odd, and every identifier keeps
//! that as its invariant, so that the integer form names one key exactly.
use vstd::prelude::*;

verus! {

/// Bit 32 of a key's integer form is the low bit of its version; the keys a
/// slot map hands out always carry an odd version.
pub open spec fn canonical_key(k: u64) -> bool {
    (k / 0x1_0000_0000) % 2 == 1
}

/// The slot index encoded in a key's integer form.
pub open spec fn key_index(k: u64) -> u64 {
    k % 0x1_0000_0000
}

/// The slot index that no occupied slot ever has (the null key's).
pub open spec fn null_index() -> u64 {
    0xFFFF_FFFF
}

/// Identifies a node of the flow graph.
#[derive(Clone, Copy, Debug, PartialEq, Eq, Hash, Structural)]
pub struct NodeID {
    pub(crate) key: u64,
}

impl NodeID {
    #[verifier::type_invariant]
    spec fn inv(self) -> bool {
        canonical_key(self.key)
    }

    /// The integer form of this identifier.
    pub closed spec fn raw(self) -> u64 {
        self.key
    }

    /// Builds the identifier whose integer form is `key`.
    pub(crate) fn from_raw(key: u64) -> (r: Self)
        requires
            canonical_key(key),
        ensures
            r.raw() == key,
    {
        NodeID { key }
    }

    /// The integer form of this identifier, as a value.
    pub fn to_raw(&self) -> (r: u64)
        ensures
            r == self.raw(),
            canonical_key(r),
    {
        proof {
            use_type_invariant(self);
        }
        self.key
    }

    /// Two identifiers are equal exactly when their integer forms are.
    pub broadcast proof fn lemma_raw_injective(a: Self, b: Self)
        ensures
            #[trigger] a.raw() == #[trigger] b.raw() <==> a == b,
    {
    }
}

/// Identifies an input socket of the flow graph.
#[derive(Clone, Copy, Debug, PartialEq, Eq, Hash, Structural)]
pub struct InputSocketID {
    pub(crate) key: u64,
}

impl InputSocketID {
    #[verifier::type_invariant]
    spec fn inv(self) -> bool {
        canonical_key(self.key)
    }

    /// The integer form of this identifier.
    pub closed spec fn raw(self) -> u64 {
        self.key
    }

    /// Builds the identifier whose integer form is `key`.
    pub(crate) fn from_raw(key: u64) -> (r: Self)
        requires
            canonical_key(key),
        ensures
            r.raw() == key,
    {
        InputSocketID { key }
    }

    /// The integer form of this identifier, as a value.
    pub fn to_raw(&self) -> (r: u64)
        ensures
            r == self.raw(),
            canonical_key(r),
    {
        proof {
            use_type_invariant(self);
        }
        self.key
    }

    /// Two identifiers are equal exactly when their integer forms are.
    pub broadcast proof fn lemma_raw_injective(a: Self, b: Self)
        ensures
            #[trigger] a.raw() == #[trigger] b.raw() <==> a == b,
    {
    }
}

/// Identifies an output socket of the flow graph.
#[derive(Clone, Copy, Debug, PartialEq, Eq, Hash, Structural)]
pub struct OutputSocketID {
    pub(crate) key: u64,
}

impl OutputSocketID {
    #[verifier::type_invariant]
    spec fn inv(self) -> bool {
        canonical_key(self.key)
    }

    /// The integer form of this identifier.
    pub closed spec fn raw(self) -> u64 {
        self.key
    }

    /// Builds the identifier whose integer form is `key`.
    pub(crate) fn from_raw(key: u64) -> (r: Self)
        requires
            canonical_key(key),
        ensures
            r.raw() == key,
    {
        OutputSocketID { key }
    }

    /// The integer form of this identifier, as a value.
    pub fn to_raw(&self) -> (r: u64)
        ensures
            r == self.raw(),
            canonical_key(r),
    {
        proof {
            use_type_invariant(self);
        }
        self.key
    }

    /// Two identifiers are equal exactly when their integer forms are.
    pub broadcast proof fn lemma_raw_injective(a: Self, b: Self)
        ensures
            #[trigger] a.raw() == #[trigger] b.raw() <==> a == b,
    {
    }
}

/// Identifies an audio track of a project.
#[derive(Clone, Copy, Debug, PartialEq, Eq, Hash, Structural)]
pub struct AudioTrackID {
    pub(crate) key: u64,
}

impl AudioTrackID {
    #[verifier::type_invariant]
    spec fn inv(self) -> bool {
        canonical_key(self.key)
    }

    /// The integer form of this identifier.
    pub closed spec fn raw(self) -> u64 {
        self.key
    }

    /// Builds the identifier whose integer form is `key`.
    pub(crate) fn from_raw(key: u64) -> (r: Self)
        requires
            canonical_key(key),
        ensures
            r.raw() == key,
    {
        AudioTrackID { key }
    }

    /// The integer form of this identifier, as a value.
    pub fn to_raw(&self) -> (r: u64)
        ensures
            r == self.raw(),
            canonical_key(r),
    {
        proof {
            use_type_invariant(self);
        }
        self.key
    }

    /// Two identifiers are equal exactly when their integer forms are.
    pub broadcast proof fn lemma_raw_injective(a: Self, b: Self)
        ensures
            #[trigger] a.raw() == #[trigger] b.raw() <==> a == b,
    {
    }
}

/// Identifies an audio clip of a project.
#[derive(Clone, Copy, Debug, PartialEq, Eq, Hash, Structural)]
pub struct AudioClipID {
    pub(crate) key: u64,
}

impl AudioClipID {
    #[verifier::type_invariant]
    spec fn inv(self) -> bool {
        canonical_key(self.key)
    }

    /// The integer form of this identifier.
    pub closed spec fn raw(self) -> u64 {
        self.key
    }

    /// Builds the identifier whose integer form is `key`.
    pub(crate) fn from_raw(key: u64) -> (r: Self)
        requires
            canonical_key(key),
        ensures
            r.raw() == key,
    {
        AudioClipID { key }
    }

    /// The integer form of this identifier, as a value.
    pub fn to_raw(&self) -> (r: u64)
        ensures
            r == self.raw(),
            canonical_key(r),
    {
        proof {
            use_type_invariant(self);
        }
        self.key
    }

    /// Two identifiers are equal exactly when their integer forms are.
    pub broadcast proof fn lemma_raw_injective(a: Self, b: Self)
        ensures
            #[trigger] a.raw() == #[trigger] b.raw() <==> a == b,
    {
    }
}

/// Identifies an audio asset. Assets live outside the project model, so this
/// is the integer form of the asset registry's key, carried as is.
#[derive(Clone, Copy, Debug, PartialEq, Eq, Hash, Structural)]
pub struct AudioAssetID(pub u64);

pub broadcast group group_id_lemmas {
    NodeID::lemma_raw_injective,
    InputSocketID::lemma_raw_injective,
    OutputSocketID::lemma_raw_injective,
    AudioTrackID::lemma_raw_injective,
    AudioClipID::lemma_raw_injective,
}

} // verus!
