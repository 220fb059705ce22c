//! Point lookup: the value stored under a key.

use crate::find::{lemma_child_inserted, lemma_child_replaced, lemma_key_follows_path};
use crate::node::{lemma_keys_of, Node};
use vstd::prelude::*;

verus! {

impl<V> Node<V> {
    /// The value stored under `key` in this subtree, which sits at `depth`.
    ///
    /// Only the cached bytes of a compressed path are compared on the way
    /// down; the leaf's full key settles the answer.
    pub(crate) fn lookup(&self, key: &[u8], depth: usize, Ghost(pre): Ghost<Seq<u8>>) -> (r:
        Option<&V>)
        requires
            self is Empty || self.wf(pre),
            pre.len() == depth,
        ensures
            r == if self@.contains_key(key@) {
                Some(&self@[key@])
            } else {
                None
            },
        decreases self,
    {
        match self {
            Node::Empty => None,
            Node::Leaf(leaf) => {
                if leaf.matches(key) {
                    Some(&leaf.value)
                } else {
                    None
                }
            },
            Node::Internal(internal) => {
                proof {
                    lemma_keys_of(**internal, pre);
                }
                let mut depth: usize = depth;
                if internal.header.partial_len != 0 {
                    if depth > key.len() {
                        return None;
                    }
                    let matched: usize = internal.header.check_prefix(key, depth);
                    if matched != internal.header.cached_len() {
                        return None;
                    }
                    depth = depth + internal.header.partial_len;
                }
                if depth >= key.len() {
                    return None;
                }
                let c: u8 = key[depth];
                match internal.find_child(c) {
                    None => None,
                    Some(child) => {
                        let ghost below = internal.path(pre.len() as int).push(c);
                        child.lookup(key, depth + 1, Ghost(below))
                    },
                }
            },
        }
    }

    /// The value stored under `key` in this subtree, to be changed in place.
    /// The subtree keeps its keys and its shape.
    pub(crate) fn lookup_mut(&mut self, key: &[u8], depth: usize, Ghost(pre): Ghost<Seq<u8>>) -> (r:
        Option<&mut V>)
        requires
            *old(self) is Empty || old(self).wf(pre),
            pre.len() == depth,
        ensures
            match r {
                Some(v) => {
                    &&& old(self)@.contains_key(key@)
                    &&& *v == old(self)@[key@]
                    &&& final(self).wf(pre)
                    &&& final(self)@ == old(self)@.insert(key@, *final(v))
                    &&& final(self).inserted(*old(self), key@, *final(v), pre)
                },
                None => {
                    &&& !old(self)@.contains_key(key@)
                    &&& final(self)@ == old(self)@
                    &&& *old(self) is Empty ==> *final(self) is Empty
                    &&& old(self).wf(pre) ==> final(self).wf(pre)
                },
            },
        decreases *old(self),
    {
        match self {
            Node::Empty => None,
            Node::Leaf(leaf) => {
                if leaf.matches(key) {
                    proof {
                        assert(map![leaf.key@ => leaf.value].insert(key@, leaf.value)
                            =~= map![leaf.key@ => leaf.value]);
                    }
                    Some(&mut leaf.value)
                } else {
                    None
                }
            },
            Node::Internal(internal) => {
                proof {
                    lemma_keys_of(**internal, pre);
                }
                let ghost n0 = **internal;
                let ghost n1 = **final(internal);
                let mut depth: usize = depth;
                if internal.header.partial_len != 0 {
                    if depth > key.len() {
                        return None;
                    }
                    let matched: usize = internal.header.check_prefix(key, depth);
                    if matched != internal.header.cached_len() {
                        return None;
                    }
                    depth = depth + internal.header.partial_len;
                }
                if depth >= key.len() {
                    return None;
                }
                let c: u8 = key[depth];
                if internal.find_child_index(c).is_none() {
                    return None;
                }
                let ghost below = n0.path(pre.len() as int).push(c);
                let child = internal.find_child_mut(c).unwrap();
                match child.lookup_mut(key, depth + 1, Ghost(below)) {
                    Some(v) => {
                        proof {
                            lemma_child_inserted(n0, n1, pre, c, key@, *final(v));
                            lemma_key_follows_path(n0, pre, key@);
                        }
                        Some(v)
                    },
                    None => {
                        proof {
                            lemma_child_replaced(n0, n1, pre, c);
                            assert(n1@ =~= n0@);
                        }
                        None
                    },
                }
            },
        }
    }
}

} // verus!
