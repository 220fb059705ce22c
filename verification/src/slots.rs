//! The arrays behind an interior node: edge bytes kept in ascending order,
//! and child slots of a fixed number.

use crate::node::{index_in, lemma_index_in, sorted_below, Node};
use vstd::prelude::*;

verus! {

/// Where an index below `idx` or from `idx` on lands once one entry has been
/// put in at `idx`; -1 stays -1.
pub open spec fn after_insert(i: int, idx: int) -> int {
    if i < 0 {
        -1
    } else if i < idx {
        i
    } else {
        i + 1
    }
}

/// Where an index lands once the entry at `pos` has been taken out; the
/// entry taken out, and -1, land at -1.
pub open spec fn after_remove(i: int, pos: int) -> int {
    if i < 0 || i == pos {
        -1
    } else if i < pos {
        i
    } else {
        i - 1
    }
}

/// `k1` holds the first `n` entries of `k0` with `c` put in at `idx`, and is
/// as `k0` is after them.
pub open spec fn inserted_at(k0: Seq<u8>, k1: Seq<u8>, n: int, idx: int, c: u8) -> bool {
    &&& 0 <= idx <= n < k0.len()
    &&& k1.len() == k0.len()
    &&& forall|i: int| 0 <= i < idx ==> k1[i] == k0[i]
    &&& k1[idx] == c
    &&& forall|i: int| idx < i <= n ==> k1[i] == k0[i - 1]
    &&& forall|i: int| n < i < k0.len() ==> k1[i] == k0[i]
}

/// `k1` holds the first `n` entries of `k0` without the one at `pos`, then
/// a 0 in the place that fell free, and is as `k0` is after that.
pub open spec fn removed_at(k0: Seq<u8>, k1: Seq<u8>, n: int, pos: int) -> bool {
    &&& 0 <= pos < n <= k0.len()
    &&& k1.len() == k0.len()
    &&& forall|i: int| 0 <= i < pos ==> k1[i] == k0[i]
    &&& forall|i: int| pos <= i < n - 1 ==> k1[i] == k0[i + 1]
    &&& k1[n - 1] == 0
    &&& forall|i: int| n <= i < k0.len() ==> k1[i] == k0[i]
}

/// Putting a new byte in at its place keeps the order, and every byte that
/// was there is found again, one index on where it sat at or after the place.
pub proof fn lemma_inserted_at(k0: Seq<u8>, k1: Seq<u8>, n: int, idx: int, c: u8)
    requires
        inserted_at(k0, k1, n, idx, c),
        sorted_below(k0, n),
        forall|i: int| 0 <= i < idx ==> k0[i] < c,
        forall|i: int| idx <= i < n ==> c < k0[i],
    ensures
        sorted_below(k1, n + 1),
        index_in(k1, n + 1, c) == idx,
        forall|b: u8| b != c ==> index_in(k1, n + 1, b) == after_insert(index_in(k0, n, b), idx),
{
    assert forall|i: int, j: int| 0 <= i < j < n + 1 implies k1[i] < k1[j] by {
        if i < idx && j > idx {
            assert(k1[j] == k0[j - 1]);
        } else if i > idx {
            assert(k1[i] == k0[i - 1]);
            assert(k1[j] == k0[j - 1]);
        }
    }
    lemma_index_in(k1, n + 1, idx);
    assert forall|b: u8| b != c implies index_in(k1, n + 1, b) == after_insert(
        index_in(k0, n, b),
        idx,
    ) by {
        let i0 = index_in(k0, n, b);
        if i0 >= 0 {
            let i1 = after_insert(i0, idx);
            assert(k1[i1] == b);
            lemma_index_in(k1, n + 1, i1);
        } else {
            if index_in(k1, n + 1, b) >= 0 {
                let i1 = index_in(k1, n + 1, b);
                if i1 < idx {
                    assert(k0[i1] == b);
                } else {
                    assert(k0[i1 - 1] == b);
                }
            }
        }
    }
}

/// Taking one byte out keeps the order, and every other byte is found again,
/// one index back where it sat after the one taken out.
pub proof fn lemma_removed_at(k0: Seq<u8>, k1: Seq<u8>, n: int, pos: int)
    requires
        removed_at(k0, k1, n, pos),
        sorted_below(k0, n),
    ensures
        sorted_below(k1, n - 1),
        forall|b: u8| index_in(k1, n - 1, b) == after_remove(index_in(k0, n, b), pos),
{
    assert forall|i: int, j: int| 0 <= i < j < n - 1 implies k1[i] < k1[j] by {
        if i < pos && j >= pos {
            assert(k0[i] < k0[j + 1]);
        } else if i >= pos {
            assert(k0[i + 1] < k0[j + 1]);
        }
    }
    assert forall|b: u8| index_in(k1, n - 1, b) == after_remove(index_in(k0, n, b), pos) by {
        let i0 = index_in(k0, n, b);
        lemma_index_in(k0, n, pos);
        if i0 >= 0 && i0 != pos {
            let i1 = after_remove(i0, pos);
            assert(k1[i1] == b);
            lemma_index_in(k1, n - 1, i1);
        } else {
            if index_in(k1, n - 1, b) >= 0 {
                let i1 = index_in(k1, n - 1, b);
                if i1 < pos {
                    assert(k0[i1] == b);
                    lemma_index_in(k0, n, i1);
                } else {
                    assert(k0[i1 + 1] == b);
                    lemma_index_in(k0, n, i1 + 1);
                }
            }
        }
    }
}

/// Two arrays that hold the same first `n` bytes, in ascending order, find
/// every byte at the same index.
pub proof fn lemma_index_in_same(k0: Seq<u8>, k1: Seq<u8>, n: int)
    requires
        sorted_below(k0, n),
        0 <= n <= k0.len(),
        n <= k1.len(),
        forall|i: int| 0 <= i < n ==> k0[i] == k1[i],
    ensures
        sorted_below(k1, n),
        forall|b: u8| index_in(k1, n, b) == index_in(k0, n, b),
{
    assert forall|i: int, j: int| 0 <= i < j < n implies k1[i] < k1[j] by {
        assert(k0[i] < k0[j]);
    }
    assert forall|b: u8| index_in(k1, n, b) == index_in(k0, n, b) by {
        let i0 = index_in(k0, n, b);
        if i0 >= 0 {
            assert(k1[i0] == b);
            lemma_index_in(k1, n, i0);
        } else {
            if index_in(k1, n, b) >= 0 {
                assert(k0[index_in(k1, n, b)] == b);
            }
        }
    }
}

/// The index of the first of the first `n` entries that is above `c`, or `n`.
pub fn upper_bound(keys: &[u8], n: usize, c: u8) -> (r: usize)
    requires
        n <= keys@.len(),
        sorted_below(keys@, n as int),
    ensures
        r <= n,
        forall|i: int| 0 <= i < r ==> keys@[i] <= c,
        forall|i: int| r <= i < n ==> c < keys@[i],
{
    let mut i: usize = 0;
    while i < n
        invariant
            i <= n <= keys@.len(),
            sorted_below(keys@, n as int),
            forall|j: int| 0 <= j < i ==> keys@[j] <= c,
        decreases n - i,
    {
        if c < keys[i] {
            assert forall|j: int| i <= j < n implies c < keys@[j] by {
                if i < j {
                    assert(keys@[i as int] < keys@[j]);
                }
            }
            return i;
        }
        i += 1;
    }
    i
}

/// Puts `c` in at `idx`, moving the entries from `idx` up to `n` one on.
pub fn keys_insert<const N: usize>(keys: &mut [u8; N], n: usize, idx: usize, c: u8)
    requires
        idx <= n < N,
    ensures
        inserted_at(old(keys)@, final(keys)@, n as int, idx as int, c),
{
    let ghost k0 = keys@;
    let mut i: usize = n;
    while i > idx
        invariant
            idx <= i <= n < N,
            keys@.len() == N,
            k0.len() == N,
            forall|j: int| 0 <= j <= i ==> keys@[j] == k0[j],
            forall|j: int| i < j <= n ==> keys@[j] == k0[j - 1],
            forall|j: int| n < j < N ==> keys@[j] == k0[j],
        decreases i,
    {
        keys[i] = keys[i - 1];
        i -= 1;
    }
    keys[idx] = c;
}

/// Takes the entry at `pos` out, moving the entries after it, up to `n`, one
/// back; the place that falls free holds 0.
pub fn keys_remove<const N: usize>(keys: &mut [u8; N], n: usize, pos: usize)
    requires
        pos < n <= N,
    ensures
        removed_at(old(keys)@, final(keys)@, n as int, pos as int),
{
    let ghost k0 = keys@;
    let mut i: usize = pos;
    while i + 1 < n
        invariant
            pos <= i < n <= N,
            keys@.len() == N,
            k0.len() == N,
            forall|j: int| 0 <= j < pos ==> keys@[j] == k0[j],
            forall|j: int| pos <= j < i ==> keys@[j] == k0[j + 1],
            forall|j: int| i <= j < N ==> keys@[j] == k0[j],
        decreases n - i,
    {
        keys[i] = keys[i + 1];
        i += 1;
    }
    keys[n - 1] = 0;
}

/// `n` empty child slots.
pub fn empty_slots<V>(n: usize) -> (r: Vec<Node<V>>)
    ensures
        r@.len() == n,
        forall|i: int| 0 <= i < n ==> r@[i] is Empty,
{
    let mut v: Vec<Node<V>> = Vec::with_capacity(n);
    pad_slots(&mut v, n);
    v
}

/// Adds empty slots at the end until there are `n`.
pub fn pad_slots<V>(v: &mut Vec<Node<V>>, n: usize)
    requires
        old(v)@.len() <= n,
    ensures
        final(v)@.len() == n,
        forall|i: int| 0 <= i < old(v)@.len() ==> final(v)@[i] == old(v)@[i],
        forall|i: int| old(v)@.len() <= i < n ==> final(v)@[i] is Empty,
{
    let ghost v0 = v@;
    while v.len() < n
        invariant
            v0.len() <= v@.len() <= n,
            forall|i: int| 0 <= i < v0.len() ==> v@[i] == v0[i],
            forall|i: int| v0.len() <= i < v@.len() ==> v@[i] is Empty,
        decreases n - v@.len(),
    {
        v.push(Node::Empty);
    }
}

/// Takes the node out of a slot and leaves the slot empty.
pub fn take_slot<V>(slot: &mut Node<V>) -> (r: Node<V>)
    ensures
        r == *old(slot),
        *final(slot) is Empty,
{
    let mut out: Node<V> = Node::Empty;
    std::mem::swap(slot, &mut out);
    out
}

} // verus!
