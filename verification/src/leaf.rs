//! Leaves: a full key with its value.

use crate::keys::{common_len, common_prefix_len, keys_equal};
use crate::node::ArtNodeLeaf;
use vstd::prelude::*;
use vstd::slice::slice_to_vec;

verus! {

impl<V> ArtNodeLeaf<V> {
    /// The stored key.
    pub open(crate) spec fn key_bytes(self) -> Seq<u8> {
        self.key@
    }

    /// The stored value.
    pub open(crate) spec fn stored(self) -> V {
        self.value
    }

    /// A leaf that holds a copy of `key`, with `value`.
    pub(crate) fn new(key: &[u8], value: V) -> (r: Self)
        ensures
            r.key@ == key@,
            r.value == value,
    {
        Self { value, key: slice_to_vec(key) }
    }

    /// Whether the stored key is `key`, byte for byte.
    pub(crate) fn matches(&self, key: &[u8]) -> (r: bool)
        ensures
            r == (self.key@ == key@),
    {
        keys_equal(self.key.as_slice(), key)
    }

    /// The number of bytes from `depth` on which the two leaves' keys agree,
    /// up to the end of the shorter.
    pub(crate) fn longest_common_prefix(&self, other: &Self, depth: usize) -> (r: usize)
        requires
            depth <= self.key@.len(),
            depth <= other.key@.len(),
        ensures
            r == common_len(self.key@, other.key@, depth as int),
    {
        common_prefix_len(self.key.as_slice(), other.key.as_slice(), depth)
    }
}

} // verus!
