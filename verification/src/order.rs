//! The children of an interior node in ascending order of their edge bytes,
//! and the least and greatest keys of a subtree.

use crate::find::{lemma_child_inserted, lemma_key_follows_path};
use crate::keys::{is_greatest, is_least, lemma_lex_lt_by_byte, lex_le};
use crate::node::{
    lemma_index_in, lemma_keys_of, ArtNodeInternal, ArtNodeInternalInner, ArtNodeLeaf, Node,
};
use vstd::prelude::*;

verus! {

impl<V> ArtNodeInternal<V> {
    /// The child with the least edge byte that is not below `from`.
    #[verifier::loop_isolation(false)]
    pub(crate) fn next_child(&self, from: usize) -> (r: Option<(u8, &Node<V>)>)
        requires
            self.layout(),
            from <= 256,
        ensures
            match r {
                Some((b, x)) => {
                    &&& from <= b
                    &&& self.has(b)
                    &&& *x == self.child(b)
                    &&& forall|o: u8| from <= o < b ==> !self.has(o)
                },
                None => forall|o: u8| from <= o ==> !self.has(o),
            },
    {
        let n: usize = self.header.num_children as usize;
        match &self.inner {
            ArtNodeInternalInner::Node4 { keys, children } => {
                let mut i: usize = 0;
                while i < n
                    invariant
                        i <= n <= 4,
                        forall|j: int| 0 <= j < i ==> keys@[j] < from,
                    decreases n - i,
                {
                    if keys[i] as usize >= from {
                        proof {
                            lemma_index_in(keys@, n as int, i as int);
                        }
                        return Some((keys[i], &children[i]));
                    }
                    i += 1;
                }
                None
            },
            ArtNodeInternalInner::Node16 { keys, children } => {
                let mut i: usize = 0;
                while i < n
                    invariant
                        i <= n <= 16,
                        forall|j: int| 0 <= j < i ==> keys@[j] < from,
                    decreases n - i,
                {
                    if keys[i] as usize >= from {
                        proof {
                            lemma_index_in(keys@, n as int, i as int);
                        }
                        return Some((keys[i], &children[i]));
                    }
                    i += 1;
                }
                None
            },
            ArtNodeInternalInner::Node48 { keys, children } => {
                let mut b: usize = from;
                while b < 256
                    invariant
                        from <= b <= 256,
                        forall|o: int| from <= o < b ==> keys@[o] == 0,
                    decreases 256 - b,
                {
                    let idx: usize = keys[b] as usize;
                    if idx != 0 {
                        return Some((b as u8, &children[idx - 1]));
                    }
                    b += 1;
                }
                None
            },
            ArtNodeInternalInner::Node256 { children } => {
                let mut b: usize = from;
                while b < 256
                    invariant
                        from <= b <= 256,
                        children@.len() == 256,
                        forall|o: int| from <= o < b ==> children@[o] is Empty,
                    decreases 256 - b,
                {
                    if !children[b].is_empty() {
                        return Some((b as u8, &children[b]));
                    }
                    b += 1;
                }
                None
            },
        }
    }

    /// The child with the greatest edge byte below `below`.
    #[verifier::loop_isolation(false)]
    pub(crate) fn prev_child(&self, below: usize) -> (r: Option<(u8, &Node<V>)>)
        requires
            self.layout(),
            below <= 256,
        ensures
            match r {
                Some((b, x)) => {
                    &&& b < below
                    &&& self.has(b)
                    &&& *x == self.child(b)
                    &&& forall|o: u8| b < o < below ==> !self.has(o)
                },
                None => forall|o: u8| o < below ==> !self.has(o),
            },
    {
        let n: usize = self.header.num_children as usize;
        match &self.inner {
            ArtNodeInternalInner::Node4 { keys, children } => {
                let mut i: usize = n;
                while i > 0
                    invariant
                        i <= n <= 4,
                        forall|j: int| i <= j < n ==> keys@[j] >= below,
                    decreases i,
                {
                    i -= 1;
                    if (keys[i] as usize) < below {
                        proof {
                            lemma_index_in(keys@, n as int, i as int);
                        }
                        return Some((keys[i], &children[i]));
                    }
                }
                None
            },
            ArtNodeInternalInner::Node16 { keys, children } => {
                let mut i: usize = n;
                while i > 0
                    invariant
                        i <= n <= 16,
                        forall|j: int| i <= j < n ==> keys@[j] >= below,
                    decreases i,
                {
                    i -= 1;
                    if (keys[i] as usize) < below {
                        proof {
                            lemma_index_in(keys@, n as int, i as int);
                        }
                        return Some((keys[i], &children[i]));
                    }
                }
                None
            },
            ArtNodeInternalInner::Node48 { keys, children } => {
                let mut b: usize = below;
                while b > 0
                    invariant
                        b <= below <= 256,
                        forall|o: int| b <= o < below ==> keys@[o] == 0,
                    decreases b,
                {
                    b -= 1;
                    let idx: usize = keys[b] as usize;
                    if idx != 0 {
                        return Some((b as u8, &children[idx - 1]));
                    }
                }
                None
            },
            ArtNodeInternalInner::Node256 { children } => {
                let mut b: usize = below;
                while b > 0
                    invariant
                        b <= below <= 256,
                        children@.len() == 256,
                        forall|o: int| b <= o < below ==> children@[o] is Empty,
                    decreases b,
                {
                    b -= 1;
                    if !children[b].is_empty() {
                        return Some((b as u8, &children[b]));
                    }
                }
                None
            },
        }
    }
}

impl<V> ArtNodeInternal<V> {
    /// The leaf with the least key below this node: the least of its first child.
    pub(crate) fn minimum(&self, Ghost(pre): Ghost<Seq<u8>>) -> (r: Option<&ArtNodeLeaf<V>>)
        requires
            self.wf(pre),
        ensures
            r matches Some(l) && is_least(self@.dom(), l.key@) && self@[l.key@] == l.value,
        decreases self,
    {
        proof {
            lemma_keys_of(*self, pre);
        }
        match self.next_child(0) {
            None => {
                proof {
                    assert(self@.contains_key(self.rep_key()));
                }
                None
            },
            Some((b, child)) => {
                let ghost below = self.path(pre.len() as int).push(b);
                let r = child.minimum(Ghost(below));
                proof {
                    lemma_least_in_first(*self, pre, b, r->0.key@);
                }
                r
            },
        }
    }

    /// The leaf with the greatest key below this node: the greatest of its last child.
    pub(crate) fn maximum(&self, Ghost(pre): Ghost<Seq<u8>>) -> (r: Option<&ArtNodeLeaf<V>>)
        requires
            self.wf(pre),
        ensures
            r matches Some(l) && is_greatest(self@.dom(), l.key@) && self@[l.key@] == l.value,
        decreases self,
    {
        proof {
            lemma_keys_of(*self, pre);
        }
        match self.prev_child(256) {
            None => {
                proof {
                    assert(self@.contains_key(self.rep_key()));
                }
                None
            },
            Some((b, child)) => {
                let ghost below = self.path(pre.len() as int).push(b);
                let r = child.maximum(Ghost(below));
                proof {
                    lemma_greatest_in_last(*self, pre, b, r->0.key@);
                }
                r
            },
        }
    }

    /// The least key below this node, with its value to be changed in place.
    pub(crate) fn minimum_mut(&mut self, Ghost(pre): Ghost<Seq<u8>>) -> (r: Option<
        (&Vec<u8>, &mut V),
    >)
        requires
            old(self).wf(pre),
        ensures
            r matches Some((k, v)) && is_least(old(self)@.dom(), k@) && *v == old(self)@[k@]
                && final(self).wf(pre) && final(self)@ == old(self)@.insert(k@, *final(v))
                && final(self).handed_on(*old(self), k@, *final(v), pre),
        decreases *old(self),
    {
        proof {
            lemma_keys_of(*self, pre);
        }
        let ghost n0 = *self;
        let ghost n1 = *final(self);
        let edge: Option<u8> = match self.next_child(0) {
            None => None,
            Some((b, _)) => Some(b),
        };
        match edge {
            None => {
                proof {
                    assert(n0@.contains_key(n0.rep_key()));
                }
                None
            },
            Some(b) => {
                let ghost below = n0.path(pre.len() as int).push(b);
                let child = self.find_child_mut(b).unwrap();
                match child.minimum_mut(Ghost(below)) {
                    Some((k, v)) => {
                        proof {
                            lemma_least_in_first(n0, pre, b, k@);
                            lemma_child_inserted(n0, n1, pre, b, k@, *final(v));
                            lemma_key_follows_path(n0, pre, k@);
                            assert(n0.child(b)@.contains_key(k@));
                        }
                        Some((k, v))
                    },
                    None => None,
                }
            },
        }
    }

    /// The greatest key below this node, with its value to be changed in place.
    pub(crate) fn maximum_mut(&mut self, Ghost(pre): Ghost<Seq<u8>>) -> (r: Option<
        (&Vec<u8>, &mut V),
    >)
        requires
            old(self).wf(pre),
        ensures
            r matches Some((k, v)) && is_greatest(old(self)@.dom(), k@) && *v == old(self)@[k@]
                && final(self).wf(pre) && final(self)@ == old(self)@.insert(k@, *final(v))
                && final(self).handed_on(*old(self), k@, *final(v), pre),
        decreases *old(self),
    {
        proof {
            lemma_keys_of(*self, pre);
        }
        let ghost n0 = *self;
        let ghost n1 = *final(self);
        let edge: Option<u8> = match self.prev_child(256) {
            None => None,
            Some((b, _)) => Some(b),
        };
        match edge {
            None => {
                proof {
                    assert(n0@.contains_key(n0.rep_key()));
                }
                None
            },
            Some(b) => {
                let ghost below = n0.path(pre.len() as int).push(b);
                let child = self.find_child_mut(b).unwrap();
                match child.maximum_mut(Ghost(below)) {
                    Some((k, v)) => {
                        proof {
                            lemma_greatest_in_last(n0, pre, b, k@);
                            lemma_child_inserted(n0, n1, pre, b, k@, *final(v));
                            lemma_key_follows_path(n0, pre, k@);
                            assert(n0.child(b)@.contains_key(k@));
                        }
                        Some((k, v))
                    },
                    None => None,
                }
            },
        }
    }
}

/// The least key under the least edge byte is the least key of the node.
pub(crate) proof fn lemma_least_in_first<V>(n: ArtNodeInternal<V>, pre: Seq<u8>, b: u8, k: Seq<u8>)
    requires
        n.wf(pre),
        n.has(b),
        forall|o: u8| o < b ==> !n.has(o),
        is_least(n.child(b)@.dom(), k),
    ensures
        is_least(n@.dom(), k),
{
    lemma_keys_of(n, pre);
    let m = pre.len() + n.header.partial_len;
    let p = n.path(pre.len() as int);
    assert(n.child(b)@.contains_key(k));
    assert forall|o: Seq<u8>| n@.dom().contains(o) implies lex_le(k, o) by {
        assert(n@.contains_key(o));
        if o[m] == b {
            assert(n.child(b)@.dom().contains(o));
        } else {
            assert(n.has(o[m]));
            assert forall|j: int| 0 <= j < m implies k[j] == o[j] by {
                assert(k[j] == p[j]);
                assert(o[j] == p[j]);
            }
            lemma_lex_lt_by_byte(k, o, m);
        }
    }
}

/// The greatest key under the greatest edge byte is the greatest key of the node.
pub(crate) proof fn lemma_greatest_in_last<V>(
    n: ArtNodeInternal<V>,
    pre: Seq<u8>,
    b: u8,
    k: Seq<u8>,
)
    requires
        n.wf(pre),
        n.has(b),
        forall|o: u8| b < o ==> !n.has(o),
        is_greatest(n.child(b)@.dom(), k),
    ensures
        is_greatest(n@.dom(), k),
{
    lemma_keys_of(n, pre);
    let m = pre.len() + n.header.partial_len;
    let p = n.path(pre.len() as int);
    assert(n.child(b)@.contains_key(k));
    assert forall|o: Seq<u8>| n@.dom().contains(o) implies lex_le(o, k) by {
        assert(n@.contains_key(o));
        if o[m] == b {
            assert(n.child(b)@.dom().contains(o));
        } else {
            assert(n.has(o[m]));
            assert forall|j: int| 0 <= j < m implies o[j] == k[j] by {
                assert(k[j] == p[j]);
                assert(o[j] == p[j]);
            }
            lemma_lex_lt_by_byte(o, k, m);
        }
    }
}

impl<V> Node<V> {
    /// The leaf with the least key of this subtree.
    pub(crate) fn minimum(&self, Ghost(pre): Ghost<Seq<u8>>) -> (r: Option<&ArtNodeLeaf<V>>)
        requires
            self is Empty || self.wf(pre),
        ensures
            match r {
                Some(l) => {
                    &&& is_least(self@.dom(), l.key@)
                    &&& self@[l.key@] == l.value
                },
                None => self is Empty,
            },
        decreases self,
    {
        match self {
            Node::Empty => None,
            Node::Leaf(leaf) => Some(&**leaf),
            Node::Internal(internal) => internal.minimum(Ghost(pre)),
        }
    }

    /// The leaf with the greatest key of this subtree.
    pub(crate) fn maximum(&self, Ghost(pre): Ghost<Seq<u8>>) -> (r: Option<&ArtNodeLeaf<V>>)
        requires
            self is Empty || self.wf(pre),
        ensures
            match r {
                Some(l) => {
                    &&& is_greatest(self@.dom(), l.key@)
                    &&& self@[l.key@] == l.value
                },
                None => self is Empty,
            },
        decreases self,
    {
        match self {
            Node::Empty => None,
            Node::Leaf(leaf) => Some(&**leaf),
            Node::Internal(internal) => internal.maximum(Ghost(pre)),
        }
    }

    /// The least key of this subtree, with its value to be changed in place.
    pub(crate) fn minimum_mut(&mut self, Ghost(pre): Ghost<Seq<u8>>) -> (r: Option<
        (&Vec<u8>, &mut V),
    >)
        requires
            *old(self) is Empty || old(self).wf(pre),
        ensures
            match r {
                Some((k, v)) => {
                    &&& is_least(old(self)@.dom(), k@)
                    &&& *v == old(self)@[k@]
                    &&& final(self).wf(pre)
                    &&& final(self)@ == old(self)@.insert(k@, *final(v))
                    &&& final(self).inserted(*old(self), k@, *final(v), pre)
                },
                None => *old(self) is Empty && *final(self) is Empty,
            },
        decreases *old(self),
    {
        match self {
            Node::Empty => None,
            Node::Leaf(leaf) => {
                proof {
                    assert(map![leaf.key@ => leaf.value].insert(leaf.key@, leaf.value)
                        =~= map![leaf.key@ => leaf.value]);
                }
                Some((&leaf.key, &mut leaf.value))
            },
            Node::Internal(internal) => {
                let ghost n0 = **internal;
                match internal.minimum_mut(Ghost(pre)) {
                    Some((k, v)) => {
                        proof {
                            lemma_key_follows_path(n0, pre, k@);
                        }
                        Some((k, v))
                    },
                    None => None,
                }
            },
        }
    }

    /// The greatest key of this subtree, with its value to be changed in place.
    pub(crate) fn maximum_mut(&mut self, Ghost(pre): Ghost<Seq<u8>>) -> (r: Option<
        (&Vec<u8>, &mut V),
    >)
        requires
            *old(self) is Empty || old(self).wf(pre),
        ensures
            match r {
                Some((k, v)) => {
                    &&& is_greatest(old(self)@.dom(), k@)
                    &&& *v == old(self)@[k@]
                    &&& final(self).wf(pre)
                    &&& final(self)@ == old(self)@.insert(k@, *final(v))
                    &&& final(self).inserted(*old(self), k@, *final(v), pre)
                },
                None => *old(self) is Empty && *final(self) is Empty,
            },
        decreases *old(self),
    {
        match self {
            Node::Empty => None,
            Node::Leaf(leaf) => {
                proof {
                    assert(map![leaf.key@ => leaf.value].insert(leaf.key@, leaf.value)
                        =~= map![leaf.key@ => leaf.value]);
                }
                Some((&leaf.key, &mut leaf.value))
            },
            Node::Internal(internal) => {
                let ghost n0 = **internal;
                match internal.maximum_mut(Ghost(pre)) {
                    Some((k, v)) => {
                        proof {
                            lemma_key_follows_path(n0, pre, k@);
                        }
                        Some((k, v))
                    },
                    None => None,
                }
            },
        }
    }
}

} // verus!
