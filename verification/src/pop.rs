//! Taking the least or the greatest key out of a subtree in one pass.

use crate::keys::{is_greatest, is_least};
use crate::node::{lemma_keys_of, ArtNodeInternal, Node};
use crate::delete::lemma_left_over;
use crate::node::lemma_wf_keys;
use crate::order::{lemma_greatest_in_last, lemma_least_in_first};
use vstd::prelude::*;

verus! {

impl<V> ArtNodeInternal<V> {
    /// Takes the least key out from below this node: out of its first child.
    pub(crate) fn pop_first(internal: Box<Self>, Ghost(pre): Ghost<Seq<u8>>) -> (r: (
        Node<V>,
        Option<(Vec<u8>, V)>,
    ))
        requires
            internal.wf(pre),
        ensures
            r.0.wf(pre),
            r.1 matches Some((k, v)) && is_least(internal@.dom(), k@) && v == internal@[k@] && r.0@
                == internal@.remove(k@) && r.0.deleted(Node::Internal(internal), k@, pre),
        decreases internal,
    {
        let mut internal = internal;
        let ghost n0 = *internal;
        let ghost p = n0.path(pre.len() as int);
        proof {
            lemma_keys_of(n0, pre);
            assert(n0@.contains_key(n0.rep_key()));
        }
        let first: Option<u8> = match internal.next_child(0) {
            None => None,
            Some((b, _)) => Some(b),
        };
        let b: u8 = match first {
            None => 0,
            Some(b) => b,
        };
        let pos: usize = match internal.find_child_index(b) {
            None => 0,
            Some(pos) => pos,
        };
        let child = internal.lift_child(pos);
        let (rest, popped) = child.pop_first(Ghost(p.push(b)));
        match popped {
            None => (rest, None),
            Some((k, v)) => {
                proof {
                    lemma_least_in_first(n0, pre, b, k@);
                    assert(n0.child(b)@.contains_key(k@));
                }
                let ghost left = rest;
                let node = ArtNodeInternal::settle(
                    internal,
                    b,
                    pos,
                    rest,
                    Ghost(n0),
                    Ghost(pre),
                    Ghost(k@),
                );
                proof {
                    assert(n0@.contains_key(k@));
                    assert(k@[pre.len() + n0.header.partial_len] == b);
                    lemma_wf_keys(n0.child(b), p.push(b));
                    if !(left is Empty) {
                        lemma_wf_keys(left, p.push(b));
                        lemma_left_over(n0.child(b), left, k@, p.push(b));
                    }
                }
                (node, Some((k, v)))
            },
        }
    }

    /// Takes the greatest key out from below this node: out of its last child.
    pub(crate) fn pop_last(internal: Box<Self>, Ghost(pre): Ghost<Seq<u8>>) -> (r: (
        Node<V>,
        Option<(Vec<u8>, V)>,
    ))
        requires
            internal.wf(pre),
        ensures
            r.0.wf(pre),
            r.1 matches Some((k, v)) && is_greatest(internal@.dom(), k@) && v == internal@[k@]
                && r.0@ == internal@.remove(k@) && r.0.deleted(Node::Internal(internal), k@, pre),
        decreases internal,
    {
        let mut internal = internal;
        let ghost n0 = *internal;
        let ghost p = n0.path(pre.len() as int);
        proof {
            lemma_keys_of(n0, pre);
            assert(n0@.contains_key(n0.rep_key()));
        }
        let last: Option<u8> = match internal.prev_child(256) {
            None => None,
            Some((b, _)) => Some(b),
        };
        let b: u8 = match last {
            None => 0,
            Some(b) => b,
        };
        let pos: usize = match internal.find_child_index(b) {
            None => 0,
            Some(pos) => pos,
        };
        let child = internal.lift_child(pos);
        let (rest, popped) = child.pop_last(Ghost(p.push(b)));
        match popped {
            None => (rest, None),
            Some((k, v)) => {
                proof {
                    lemma_greatest_in_last(n0, pre, b, k@);
                    assert(n0.child(b)@.contains_key(k@));
                }
                let ghost left = rest;
                let node = ArtNodeInternal::settle(
                    internal,
                    b,
                    pos,
                    rest,
                    Ghost(n0),
                    Ghost(pre),
                    Ghost(k@),
                );
                proof {
                    assert(n0@.contains_key(k@));
                    assert(k@[pre.len() + n0.header.partial_len] == b);
                    lemma_wf_keys(n0.child(b), p.push(b));
                    if !(left is Empty) {
                        lemma_wf_keys(left, p.push(b));
                        lemma_left_over(n0.child(b), left, k@, p.push(b));
                    }
                }
                (node, Some((k, v)))
            },
        }
    }
}

impl<V> Node<V> {
    /// Takes the least key out of this subtree, and hands back what is left
    /// of the subtree with the key and its value.
    pub(crate) fn pop_first(self, Ghost(pre): Ghost<Seq<u8>>) -> (r: (Self, Option<(Vec<u8>, V)>))
        requires
            self is Empty || self.wf(pre),
        ensures
            r.0 is Empty || r.0.wf(pre),
            match r.1 {
                Some((k, v)) => {
                    &&& is_least(self@.dom(), k@)
                    &&& v == self@[k@]
                    &&& r.0@ == self@.remove(k@)
                    &&& r.0.deleted(self, k@, pre)
                },
                None => self is Empty && r.0 is Empty,
            },
        decreases self,
    {
        match self {
            Node::Empty => (Node::Empty, None),
            Node::Leaf(leaf) => {
                assert(self@.remove(leaf.key@) =~= Map::<Seq<u8>, V>::empty());
                let owned = *leaf;
                (Node::Empty, Some((owned.key, owned.value)))
            },
            Node::Internal(internal) => ArtNodeInternal::pop_first(internal, Ghost(pre)),
        }
    }

    /// Takes the greatest key out of this subtree, and hands back what is
    /// left of the subtree with the key and its value.
    pub(crate) fn pop_last(self, Ghost(pre): Ghost<Seq<u8>>) -> (r: (Self, Option<(Vec<u8>, V)>))
        requires
            self is Empty || self.wf(pre),
        ensures
            r.0 is Empty || r.0.wf(pre),
            match r.1 {
                Some((k, v)) => {
                    &&& is_greatest(self@.dom(), k@)
                    &&& v == self@[k@]
                    &&& r.0@ == self@.remove(k@)
                    &&& r.0.deleted(self, k@, pre)
                },
                None => self is Empty && r.0 is Empty,
            },
        decreases self,
    {
        match self {
            Node::Empty => (Node::Empty, None),
            Node::Leaf(leaf) => {
                assert(self@.remove(leaf.key@) =~= Map::<Seq<u8>, V>::empty());
                let owned = *leaf;
                (Node::Empty, Some((owned.key, owned.value)))
            },
            Node::Internal(internal) => ArtNodeInternal::pop_last(internal, Ghost(pre)),
        }
    }
}

} // verus!
