//! The compressed path of an interior node, compared against a key.

use crate::node::{InternalNodeHeader, MAX_PREFIX_LEN};
use vstd::prelude::*;

verus! {

/// The cache of a path of `len` bytes that begins at index `from` of `p`:
/// its first bytes, as many as the cache takes, and zeros after them.
pub open spec fn cache_of(p: Seq<u8>, from: int, len: int) -> Seq<u8> {
    Seq::new(10, |i: int| if i < len {
        p[from + i]
    } else {
        0u8
    })
}

/// The first index from `from` on, and below `to`, at which `key` ends or
/// differs from `p`; `to` where there is none.
pub open spec fn first_difference(p: Seq<u8>, key: Seq<u8>, from: int, to: int) -> int
    decreases to - from,
{
    if from < to && from < key.len() && p[from] == key[from] {
        first_difference(p, key, from + 1, to)
    } else if from < to {
        from
    } else {
        to
    }
}

/// An index up to which `key` agrees with `p`, and at which it ends or
/// differs unless the index is `to`, is the first difference.
pub proof fn lemma_first_difference(p: Seq<u8>, key: Seq<u8>, from: int, to: int, at: int)
    requires
        from <= at <= to,
        at <= key.len(),
        forall|j: int| from <= j < at ==> key[j] == p[j],
        at < to ==> at == key.len() || key[at] != p[at],
    ensures
        first_difference(p, key, from, to) == at,
    decreases to - from,
{
    if from < at {
        lemma_first_difference(p, key, from + 1, to, at);
    }
}

impl InternalNodeHeader {
    /// How many bytes of the path are cached inline.
    pub(crate) open spec fn cached(self) -> int {
        if self.partial_len < 10 {
            self.partial_len as int
        } else {
            10
        }
    }

    /// How many bytes of the path are cached inline.
    pub(crate) fn cached_len(&self) -> (r: usize)
        ensures
            r == self.cached(),
    {
        if self.partial_len < MAX_PREFIX_LEN {
            self.partial_len
        } else {
            MAX_PREFIX_LEN
        }
    }

    /// The number of cached path bytes that `key` matches from `depth` on,
    /// before the first that differs or the end of the key.
    pub(crate) fn check_prefix(&self, key: &[u8], depth: usize) -> (r: usize)
        requires
            depth <= key@.len(),
        ensures
            r <= self.cached(),
            depth + r <= key@.len(),
            forall|i: int| 0 <= i < r ==> self.partial@[i] == key@[depth + i],
            r < self.cached() && depth + r < key@.len() ==> self.partial@[r as int] != key@[depth
                + r],
    {
        let cached: usize = self.cached_len();
        let rest: usize = key.len() - depth;
        let limit: usize = if cached < rest {
            cached
        } else {
            rest
        };
        let mut idx: usize = 0;
        while idx < limit
            invariant
                idx <= limit <= 10,
                depth + limit <= usize::MAX,
                limit <= self.cached(),
                depth + limit <= key@.len(),
                depth + limit == key@.len() || limit == self.cached(),
                forall|i: int| 0 <= i < idx ==> self.partial@[i] == key@[depth + i],
            decreases limit - idx,
        {
            if self.partial[idx] != key[depth + idx] {
                return idx;
            }
            idx += 1;
        }
        idx
    }
}

} // verus!
