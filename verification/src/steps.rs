//! What one insertion or deletion makes of a subtree, node by node: which
//! node is put where, with which class, path and slots.

use crate::keys::common_len;
use crate::node::{ArtNodeInternal, Node};
use crate::prefix::{cache_of, first_difference};
use crate::shrink::capacity_after_removal;
use vstd::prelude::*;

verus! {

/// The cache of a path that is made of a path of `len` bytes cached in
/// `head`, the edge byte `b`, and a path of `tail_len` bytes cached in
/// `tail`: as much of the three as the cache takes, and what `head` holds
/// anyway after that.
pub open spec fn joined_cache(head: Seq<u8>, len: int, b: u8, tail: Seq<u8>, tail_len: int) -> Seq<
    u8,
> {
    Seq::new(
        10,
        |i: int|
            if i < len {
                head[i]
            } else if i == len {
                b
            } else if i - len - 1 < tail_len {
                tail[i - len - 1]
            } else {
                head[i]
            },
    )
}

impl<V> ArtNodeInternal<V> {
    /// The node is of the smallest class and holds two children and no
    /// more: `x` under edge byte `bx` and `y` under edge byte `by`, in the
    /// order of the two bytes.
    pub(crate) open spec fn forks(self, bx: u8, x: Node<V>, by: u8, y: Node<V>) -> bool {
        &&& self.capacity() == 4
        &&& self.count() == 2
        &&& bx != by
        &&& self.index_keys() == if bx < by {
            seq![bx, by, 0u8, 0u8]
        } else {
            seq![by, bx, 0u8, 0u8]
        }
        &&& self.kids() == if bx < by {
            seq![x, y, Node::Empty, Node::Empty]
        } else {
            seq![y, x, Node::Empty, Node::Empty]
        }
    }

    /// `merged` is what is left when this node, of the smallest class and
    /// left with one child, merges into that child: the child as it is where
    /// it is a leaf; an interior child with the node's path, the child's
    /// edge byte and the child's own path joined into one.
    pub(crate) open spec fn collapsed(self, merged: Node<V>) -> bool {
        let edge = self.index_keys()[0];
        let child = self.kids()[0];
        match child {
            Node::Internal(sub) => {
                let len = self.header.partial_len as int;
                &&& merged matches Node::Internal(m)
                &&& m.inner == sub.inner
                &&& m.header.num_children == sub.header.num_children
                &&& m.header.partial_len == len + 1 + sub.header.partial_len
                &&& m.header.partial@ == joined_cache(
                    self.header.partial@,
                    len,
                    edge,
                    sub.header.partial@,
                    sub.header.partial_len as int,
                )
            },
            _ => merged == child,
        }
    }

    /// The node is `old` but for the slot of the child under the byte of
    /// `key` that follows the path of `old`: that slot holds what storing
    /// `value` under `key` makes of the child.
    pub(crate) open spec fn handed_on(self, old: Self, key: Seq<u8>, value: V, pre: Seq<u8>) -> bool
        decreases old, 0int,
    {
        let d = pre.len() as int;
        let c = key[d + old.header.partial_len];
        let at = old.slot(c);
        &&& old.has(c)
        &&& self.header == old.header
        &&& self.same_index(old)
        &&& self.kids() == old.kids().update(at, self.kids()[at])
        &&& self.kids()[at].inserted(old.child(c), key, value, old.path(d).push(c))
    }
}

impl<V> Node<V> {
    /// The subtree is what is left of the node `n` once nothing has come
    /// back in the place of its child under edge byte `c`: the node without
    /// that child, then merged into its last child or moved to the smaller
    /// class where its count asks for that.
    pub(crate) open spec fn settled(self, n: ArtNodeInternal<V>, c: u8) -> bool {
        exists|gone: ArtNodeInternal<V>|
            {
                &&& #[trigger] gone.unplaced(n, c)
                &&& gone.header.partial_len == n.header.partial_len
                &&& gone.header.partial == n.header.partial
                &&& gone.count() == n.count() - 1
                &&& if gone.capacity() == 4 && gone.count() == 1 {
                    gone.collapsed(self)
                } else if capacity_after_removal(gone.capacity(), gone.count())
                    == gone.capacity() {
                    self matches Node::Internal(m) && *m == gone
                } else {
                    self matches Node::Internal(m) && m.header == gone.header && m.shrunk(gone)
                }
            }
    }

    /// The subtree is what taking `key` out makes of `old`, a subtree at the
    /// end of the edges `pre`.
    ///
    /// A subtree without the key stays as it is laid out. A leaf with the
    /// key goes. An interior node with the key below it takes the key out of
    /// the child under the key's byte after the node's path: what is left of
    /// the child comes back into the child's slot, or, where nothing is
    /// left of it, the node settles without the child.
    pub(crate) open spec fn deleted(self, old: Self, key: Seq<u8>, pre: Seq<u8>) -> bool
        decreases old,
    {
        let d = pre.len() as int;
        match old {
            Node::Empty => self is Empty,
            Node::Leaf(l) => if l.key@ == key {
                self is Empty
            } else {
                self.shape() == old.shape()
            },
            Node::Internal(n) => {
                if !old@.contains_key(key) {
                    self.shape() == old.shape()
                } else {
                    let c = key[d + n.header.partial_len];
                    &&& n.has(c)
                    &&& if Node::<V>::Empty.deleted(n.child(c), key, n.path(d).push(c)) {
                        self.settled(*n, c)
                    } else {
                        &&& self matches Node::Internal(m)
                        &&& m.header == n.header
                        &&& m.same_index(*n)
                        &&& m.kids() == n.kids().update(n.slot(c), m.kids()[n.slot(c)])
                        &&& m.kids()[n.slot(c)].deleted(n.child(c), key, n.path(d).push(c))
                    }
                }
            },
        }
    }

    /// The subtree is one leaf that holds `key` with `value`.
    pub(crate) open spec fn is_leaf_of(self, key: Seq<u8>, value: V) -> bool {
        self matches Node::Leaf(l) && l.key@ == key && l.value == value
    }

    /// The subtree is what storing `value` under `key` makes of `old`, a
    /// subtree at the end of the edges `pre`.
    ///
    /// Nothing becomes a leaf. A leaf with the key keeps the key and takes
    /// the value; a leaf with another key goes under a new node of the
    /// smallest class, beside a new leaf, below the bytes that the two keys
    /// share. An interior node whose path the key follows hands the key on
    /// to the child under the key's next byte, or takes a new leaf under
    /// that byte as its class places it, after a step to the next class
    /// where it is full. An interior node whose path the key leaves keeps
    /// what is left of the path after that index and goes, under the path's
    /// byte at that index, below a new node of the smallest class that takes
    /// the path before it, beside a new leaf.
    pub(crate) open spec fn inserted(self, old: Self, key: Seq<u8>, value: V, pre: Seq<u8>) -> bool
        decreases old, 1int,
    {
        let d = pre.len() as int;
        match old {
            Node::Empty => self.is_leaf_of(key, value),
            Node::Leaf(l) => {
                if l.key@ == key {
                    self.is_leaf_of(key, value)
                } else {
                    let shared = common_len(l.key@, key, d);
                    let edge = key[d + shared];
                    &&& self matches Node::Internal(f)
                    &&& f.header.partial_len == shared
                    &&& f.header.partial@ == cache_of(key, d, shared)
                    &&& f.forks(l.key@[d + shared], old, edge, f.child(edge))
                    &&& f.child(edge).is_leaf_of(key, value)
                }
            },
            Node::Internal(n) => {
                let len = n.header.partial_len as int;
                let p = n.path(d);
                let diff = first_difference(p, key, d, d + len) - d;
                if diff >= len {
                    let c = key[d + len];
                    if n.has(c) {
                        self matches Node::Internal(m) && m.handed_on(*n, key, value, pre)
                    } else {
                        &&& self matches Node::Internal(m)
                        &&& m.header.partial_len == n.header.partial_len
                        &&& m.header.partial == n.header.partial
                        &&& m.count() == n.count() + 1
                        &&& m.child(c).is_leaf_of(key, value)
                        &&& n.count() < n.capacity() ==> m.placed(*n, c, m.child(c))
                        &&& n.count() == n.capacity() ==> exists|wider: ArtNodeInternal<V>|
                            #[trigger] wider.grown(*n) && m.placed(wider, c, m.child(c))
                    }
                } else {
                    let edge = key[d + diff];
                    &&& self matches Node::Internal(f)
                    &&& f.header.partial_len == diff
                    &&& f.header.partial@ == cache_of(p, d, diff)
                    &&& f.child(p[d + diff]) matches Node::Internal(rest)
                    &&& rest.inner == n.inner
                    &&& rest.header.num_children == n.header.num_children
                    &&& rest.header.partial_len == len - diff - 1
                    &&& rest.header.partial@ == cache_of(p, d + diff + 1, len - diff - 1)
                    &&& f.forks(p[d + diff], f.child(p[d + diff]), edge, f.child(edge))
                    &&& f.child(edge).is_leaf_of(key, value)
                }
            },
        }
    }
}

} // verus!
