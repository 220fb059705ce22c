//! Finding the child of an interior node under an edge byte, and what
//! follows for the node when that child alone changes.

use crate::count::lemma_count_same;
use crate::keys::starts_with;
use crate::prefix::{first_difference, lemma_first_difference};
use crate::node::{
    lemma_index_in, lemma_keys_of, lemma_wf_intro, lemma_wf_keys, live_pred, ArtNodeInternal,
    ArtNodeInternalInner, Node,
};
use vstd::prelude::*;

verus! {

/// The index below `n` at which `keys` holds `c`, if any.
pub(crate) fn find_key(keys: &[u8], n: usize, c: u8) -> (r: Option<usize>)
    requires
        n <= keys@.len(),
    ensures
        match r {
            Some(i) => i < n && keys@[i as int] == c,
            None => forall|j: int| 0 <= j < n ==> keys@[j] != c,
        },
{
    let mut i: usize = 0;
    while i < n
        invariant
            i <= n <= keys@.len(),
            forall|j: int| 0 <= j < i ==> keys@[j] != c,
        decreases n - i,
    {
        if keys[i] == c {
            return Some(i);
        }
        i += 1;
    }
    None
}

impl<V> ArtNodeInternal<V> {
    /// The slot of the child under edge byte `c`.
    pub(crate) fn find_child_index(&self, c: u8) -> (r: Option<usize>)
        requires
            self.layout(),
        ensures
            match r {
                Some(i) => self.has(c) && i == self.slot(c),
                None => !self.has(c),
            },
    {
        let n: usize = self.header.num_children as usize;
        match &self.inner {
            ArtNodeInternalInner::Node4 { keys, .. } => {
                let r = find_key(keys.as_slice(), n, c);
                proof {
                    if let Some(i) = r {
                        lemma_index_in(keys@, n as int, i as int);
                    }
                }
                r
            },
            ArtNodeInternalInner::Node16 { keys, .. } => {
                let r = find_key(keys.as_slice(), n, c);
                proof {
                    if let Some(i) = r {
                        lemma_index_in(keys@, n as int, i as int);
                    }
                }
                r
            },
            ArtNodeInternalInner::Node48 { keys, .. } => {
                let idx: usize = keys[c as usize] as usize;
                if idx != 0 {
                    Some(idx - 1)
                } else {
                    None
                }
            },
            ArtNodeInternalInner::Node256 { children } => {
                if children[c as usize].is_empty() {
                    None
                } else {
                    Some(c as usize)
                }
            },
        }
    }

    /// The child under edge byte `c`.
    pub(crate) fn find_child(&self, c: u8) -> (r: Option<&Node<V>>)
        requires
            self.layout(),
        ensures
            match r {
                Some(x) => self.has(c) && *x == self.child(c),
                None => !self.has(c),
            },
    {
        match self.find_child_index(c) {
            None => None,
            Some(i) => Some(self.child_at(i)),
        }
    }

    /// The node in slot `i`.
    pub(crate) fn child_at(&self, i: usize) -> (r: &Node<V>)
        requires
            i < self.kids().len(),
        ensures
            *r == self.kids()[i as int],
    {
        match &self.inner {
            ArtNodeInternalInner::Node4 { children, .. } => &children[i],
            ArtNodeInternalInner::Node16 { children, .. } => &children[i],
            ArtNodeInternalInner::Node48 { children, .. } => &children[i],
            ArtNodeInternalInner::Node256 { children } => &children[i],
        }
    }

    /// The node in slot `i`, to be changed in place.
    pub(crate) fn child_at_mut(&mut self, i: usize) -> (r: &mut Node<V>)
        requires
            i < old(self).kids().len(),
        ensures
            *r == old(self).kids()[i as int],
            final(self).header == old(self).header,
            final(self).same_index(*old(self)),
            final(self).kids() == old(self).kids().update(i as int, *final(r)),
    {
        match &mut self.inner {
            ArtNodeInternalInner::Node4 { children, .. } => &mut children[i],
            ArtNodeInternalInner::Node16 { children, .. } => &mut children[i],
            ArtNodeInternalInner::Node48 { children, .. } => &mut children[i],
            ArtNodeInternalInner::Node256 { children } => &mut children[i],
        }
    }

    /// The child under edge byte `c`, to be changed in place. The node is as
    /// before but for that one slot.
    pub(crate) fn find_child_mut(&mut self, c: u8) -> (r: Option<&mut Node<V>>)
        requires
            old(self).layout(),
        ensures
            match r {
                Some(x) => {
                    &&& old(self).has(c)
                    &&& *x == old(self).child(c)
                    &&& final(self).header == old(self).header
                    &&& final(self).same_index(*old(self))
                    &&& final(self).kids() == old(self).kids().update(
                        old(self).slot(c),
                        *final(x),
                    )
                },
                None => !old(self).has(c) && *final(self) == *old(self),
            },
    {
        match self.find_child_index(c) {
            None => None,
            Some(i) => Some(self.child_at_mut(i)),
        }
    }
}

/// A node that differs from `n0` in the one slot of the child under `c`,
/// which still holds a node, keeps the layout and maps every edge byte to the
/// same slot.
pub(crate) proof fn lemma_replace<V>(n0: ArtNodeInternal<V>, n1: ArtNodeInternal<V>, c: u8)
    requires
        n0.layout(),
        n0.has(c),
        n1.header == n0.header,
        n1.same_index(n0),
        n1.kids() == n0.kids().update(n0.slot(c), n1.kids()[n0.slot(c)]),
        !(n1.kids()[n0.slot(c)] is Empty),
    ensures
        n1.layout(),
        n1.at_rest() == n0.at_rest(),
        n1.capacity() == n0.capacity(),
        forall|b: u8| n1.has(b) == n0.has(b),
        forall|b: u8| n1.slot(b) == n0.slot(b),
        n1.child(c) == n1.kids()[n0.slot(c)],
        forall|b: u8| b != c && n0.has(b) ==> n1.child(b) == n0.child(b),
{
    let pos = n0.slot(c);
    let k0 = n0.kids();
    let k1 = n1.kids();
    assert(!(k0[pos] is Empty));
    assert forall|i: int| 0 <= i < k0.len() implies (k1[i] is Empty) == (k0[i] is Empty) by {}
    match n0.inner {
        ArtNodeInternalInner::Node4 { keys, .. } => {
            assert forall|b: u8| b != c && n0.has(b) implies n0.slot(b) != pos by {}
        },
        ArtNodeInternalInner::Node16 { keys, .. } => {
            assert forall|b: u8| b != c && n0.has(b) implies n0.slot(b) != pos by {}
        },
        ArtNodeInternalInner::Node48 { keys, .. } => {
            lemma_count_same(live_pred(k0), live_pred(k1), 48);
            assert forall|b: u8| b != c && n0.has(b) implies n0.slot(b) != pos by {
                assert(keys@[b as int] != keys@[c as int]);
            }
        },
        ArtNodeInternalInner::Node256 { .. } => {
            lemma_count_same(live_pred(k0), live_pred(k1), 256);
        },
    }
}

/// What replacing one child does to a well-formed node: it stays well formed
/// on the same path, and its keys are those of the other children together
/// with those of the new child.
pub(crate) proof fn lemma_child_replaced<V>(
    n0: ArtNodeInternal<V>,
    n1: ArtNodeInternal<V>,
    pre: Seq<u8>,
    c: u8,
)
    requires
        n0.wf(pre),
        n0.has(c),
        n1.header == n0.header,
        n1.same_index(n0),
        n1.kids() == n0.kids().update(n0.slot(c), n1.kids()[n0.slot(c)]),
        n1.kids()[n0.slot(c)].wf(n0.path(pre.len() as int).push(c)),
    ensures
        n1.wf(pre),
        n1.path(pre.len() as int) == n0.path(pre.len() as int),
        n1.has(c),
        n1.child(c) == n1.kids()[n0.slot(c)],
        forall|k: Seq<u8>|
            n1@.contains_key(k) <==> (n0@.contains_key(k) && !n0.child(c)@.contains_key(k))
                || n1.child(c)@.contains_key(k),
        forall|k: Seq<u8>|
            n1@.contains_key(k) ==> n1@[k] == if n1.child(c)@.contains_key(k) {
                n1.child(c)@[k]
            } else {
                n0@[k]
            },
{
    let d = pre.len() as int;
    let p = n0.path(d);
    let m = d + n0.header.partial_len;
    lemma_keys_of(n0, pre);
    lemma_wf_keys(n1.kids()[n0.slot(c)], p.push(c));
    lemma_replace(n0, n1, c);
    assert forall|b: u8| n1.has(b) implies n1.child(b).wf(p.push(b)) by {
        if b != c {
            assert(n1.child(b) == n0.child(b));
        }
    }
    lemma_wf_intro(n1, pre, p, c);
    lemma_keys_of(n1, pre);
    assert forall|k: Seq<u8>|
        n1@.contains_key(k) <==> (n0@.contains_key(k) && !n0.child(c)@.contains_key(k))
            || n1.child(c)@.contains_key(k) by {
        if n1@.contains_key(k) {
            if k[m] != c {
                assert(n0.child(k[m])@.contains_key(k));
            }
        }
        if n0@.contains_key(k) && !n0.child(c)@.contains_key(k) {
            assert(k[m] != c);
            assert(n1.child(k[m])@.contains_key(k));
        }
    }
    assert forall|k: Seq<u8>| n1@.contains_key(k) implies n1@[k] == if n1.child(c)@.contains_key(
        k,
    ) {
        n1.child(c)@[k]
    } else {
        n0@[k]
    } by {
        if k[m] != c {
            assert(n0.child(k[m])@.contains_key(k));
        }
    }
}

/// What a new child under a free edge byte does to a well-formed node: it
/// stays well formed on the same path, and gains the keys of the new child.
pub(crate) proof fn lemma_child_added<V>(
    n0: ArtNodeInternal<V>,
    n1: ArtNodeInternal<V>,
    pre: Seq<u8>,
    c: u8,
)
    requires
        n0.wf(pre),
        !n0.has(c),
        n1.layout(),
        n1.at_rest(),
        n1.header.partial_len == n0.header.partial_len,
        n1.header.partial == n0.header.partial,
        n1.has(c),
        n1.child(c).wf(n0.path(pre.len() as int).push(c)),
        n1.same_children_but(n0, c),
    ensures
        n1.wf(pre),
        n1.path(pre.len() as int) == n0.path(pre.len() as int),
        forall|k: Seq<u8>|
            n1@.contains_key(k) <==> n0@.contains_key(k) || n1.child(c)@.contains_key(k),
        forall|k: Seq<u8>|
            n1@.contains_key(k) ==> n1@[k] == if n1.child(c)@.contains_key(k) {
                n1.child(c)@[k]
            } else {
                n0@[k]
            },
        forall|k: Seq<u8>| n1.child(c)@.contains_key(k) ==> !n0@.contains_key(k),
{
    let d = pre.len() as int;
    let p = n0.path(d);
    let m = d + n0.header.partial_len;
    lemma_keys_of(n0, pre);
    assert forall|b: u8| n1.has(b) implies n1.child(b).wf(p.push(b)) by {
        if b != c {
            assert(n0.has(b));
            assert(n1.child(b) == n0.child(b));
        }
    }
    lemma_wf_intro(n1, pre, p, c);
    lemma_keys_of(n1, pre);
    assert forall|k: Seq<u8>|
        n1@.contains_key(k) <==> n0@.contains_key(k) || n1.child(c)@.contains_key(k) by {
        if n1@.contains_key(k) {
            if k[m] != c {
                assert(n0.has(k[m]));
                assert(n0.child(k[m])@.contains_key(k));
            }
        }
        if n0@.contains_key(k) {
            assert(k[m] != c);
            assert(n1.has(k[m]));
            assert(n1.child(k[m])@.contains_key(k));
        }
    }
    assert forall|k: Seq<u8>| n1@.contains_key(k) implies n1@[k] == if n1.child(c)@.contains_key(
        k,
    ) {
        n1.child(c)@[k]
    } else {
        n0@[k]
    } by {
        if k[m] != c {
            assert(n0.has(k[m]));
            assert(n0.child(k[m])@.contains_key(k));
        }
    }
}

/// A node that keeps its children but sits at another depth with another
/// cut of the same path stays well formed, with the same keys.
pub(crate) proof fn lemma_rebased<V>(
    n0: ArtNodeInternal<V>,
    n1: ArtNodeInternal<V>,
    pre0: Seq<u8>,
    pre1: Seq<u8>,
)
    requires
        n0.wf(pre0),
        n1.inner == n0.inner,
        n1.header.num_children == n0.header.num_children,
        pre1.len() + n1.header.partial_len == pre0.len() + n0.header.partial_len,
        starts_with(n0.path(pre0.len() as int), pre1),
        forall|i: int|
            0 <= i < n1.header.partial_len && i < 10 ==> n1.header.partial@[i] == n0.path(
                pre0.len() as int,
            )[pre1.len() + i],
    ensures
        n1.wf(pre1),
        n1.path(pre1.len() as int) == n0.path(pre0.len() as int),
        n1@ == n0@,
{
    let p = n0.path(pre0.len() as int);
    let m = pre0.len() + n0.header.partial_len;
    lemma_keys_of(n0, pre0);
    let b0 = n0.rep_key()[m];
    assert(n0.has(b0));
    assert forall|b: u8| n1.has(b) == n0.has(b) && n1.child(b) == n0.child(b) by {}
    lemma_wf_intro(n1, pre1, p, b0);
    lemma_keys_of(n1, pre1);
    assert forall|k: Seq<u8>| n1@.contains_key(k) == n0@.contains_key(k) by {
        if n1@.contains_key(k) {
            assert(n0.child(k[m])@.contains_key(k));
        }
        if n0@.contains_key(k) {
            assert(n1.child(k[m])@.contains_key(k));
        }
    }
    assert(n1@ =~= n0@);
}

/// A key below a well-formed node follows the node's path to its end, and
/// goes on under an edge byte that has a child.
pub(crate) proof fn lemma_key_follows_path<V>(n: ArtNodeInternal<V>, pre: Seq<u8>, key: Seq<u8>)
    requires
        n.wf(pre),
        n@.contains_key(key),
    ensures
        first_difference(
            n.path(pre.len() as int),
            key,
            pre.len() as int,
            pre.len() + n.header.partial_len,
        ) == pre.len() + n.header.partial_len,
        n.has(key[pre.len() + n.header.partial_len]),
{
    lemma_keys_of(n, pre);
    let d = pre.len() as int;
    let to = d + n.header.partial_len;
    let p = n.path(d);
    assert forall|j: int| d <= j < to implies key[j] == p[j] by {}
    lemma_first_difference(p, key, d, to, to);
}

/// Putting a key into one child puts it into the node.
pub(crate) proof fn lemma_child_inserted<V>(
    n0: ArtNodeInternal<V>,
    n1: ArtNodeInternal<V>,
    pre: Seq<u8>,
    c: u8,
    key: Seq<u8>,
    value: V,
)
    requires
        n0.wf(pre),
        n0.has(c),
        n1.header == n0.header,
        n1.same_index(n0),
        n1.kids() == n0.kids().update(n0.slot(c), n1.kids()[n0.slot(c)]),
        n1.kids()[n0.slot(c)].wf(n0.path(pre.len() as int).push(c)),
        n1.kids()[n0.slot(c)]@ == n0.child(c)@.insert(key, value),
    ensures
        n1.wf(pre),
        n1@ == n0@.insert(key, value),
{
    lemma_keys_of(n0, pre);
    lemma_child_replaced(n0, n1, pre, c);
    assert(n1.child(c)@.contains_key(key));
    assert(n1@ =~= n0@.insert(key, value));
}

/// Taking a key out of one child, which keeps other keys, takes it out of
/// the node.
pub(crate) proof fn lemma_child_shrunk<V>(
    n0: ArtNodeInternal<V>,
    n1: ArtNodeInternal<V>,
    pre: Seq<u8>,
    c: u8,
    key: Seq<u8>,
)
    requires
        n0.wf(pre),
        n0.has(c),
        n1.header == n0.header,
        n1.same_index(n0),
        n1.kids() == n0.kids().update(n0.slot(c), n1.kids()[n0.slot(c)]),
        n1.kids()[n0.slot(c)].wf(n0.path(pre.len() as int).push(c)),
        n1.kids()[n0.slot(c)]@ == n0.child(c)@.remove(key),
        pre.len() + n0.header.partial_len < key.len(),
        key[pre.len() + n0.header.partial_len] == c,
    ensures
        n1.wf(pre),
        n1@ == n0@.remove(key),
{
    lemma_keys_of(n0, pre);
    lemma_child_replaced(n0, n1, pre, c);
    assert(n1@ =~= n0@.remove(key));
}

} // verus!
