//! Asset bookkeeping types shared with the asset loader.
use vstd::prelude::*;

verus! {

/// Marks the asset type of a data kind.
pub trait Asset<K> {}

/// The loading state of an asset.
pub enum AssetData<Data> {
    /// Still loading.
    Pending,
    /// Loaded.
    Ready(Data),
    /// Loading failed.
    Failed,
}

impl<Data> AssetData<Data> {
    /// Whether loading has finished, one way or the other.
    pub fn is_settled(&self) -> (r: bool)
        ensures
            r == !(self is Pending),
    {
        match self {
            AssetData::Pending => false,
            _ => true,
        }
    }
}

} // verus!
