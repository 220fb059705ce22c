//! Copies of a tree: the same nodes with the same keys, each value a clone
//! of the value it was copied from.

use crate::art::ArtTree;
use crate::count::lemma_count_same;
use crate::node::{
    lemma_keys_of, lemma_wf_intro, live_pred, ArtNodeInternal, ArtNodeInternalInner, ArtNodeLeaf,
    Node,
};
use crate::u64_art_map::U64ArtMap;
use vstd::prelude::*;
use vstd::slice::slice_to_vec;

verus! {

/// `copy` holds the keys of `m`, each with a clone of its value.
pub open spec fn cloned_map<K, V: Clone>(m: Map<K, V>, copy: Map<K, V>) -> bool {
    &&& forall|k: K| m.contains_key(k) == copy.contains_key(k)
    &&& forall|k: K| #[trigger] copy.contains_key(k) ==> cloned(m[k], copy[k])
}

impl<V: Clone> ArtNodeInternal<V> {
    /// `other` is laid out as this node is, slot by slot, with clones for values.
    pub closed spec fn alike(self, other: Self) -> bool
        decreases self, 0int,
    {
        &&& self.header == other.header
        &&& self.same_index(other)
        &&& self.kids().len() == other.kids().len()
        &&& forall|i: int|
            0 <= i < self.kids().len() ==> (#[trigger] self.kids()[i]).alike(other.kids()[i])
    }

    /// A copy of this node and of all below it.
    pub(crate) fn duplicate(&self) -> (r: Self)
        ensures
            self.alike(r),
        decreases self, 1int,
    {
        let inner = match &self.inner {
            ArtNodeInternalInner::Node4 { keys, children } => ArtNodeInternalInner::Node4 {
                keys: *keys,
                children: Node::duplicate_slots(children),
            },
            ArtNodeInternalInner::Node16 { keys, children } => ArtNodeInternalInner::Node16 {
                keys: *keys,
                children: Node::duplicate_slots(children),
            },
            ArtNodeInternalInner::Node48 { keys, children } => ArtNodeInternalInner::Node48 {
                keys: *keys,
                children: Node::duplicate_slots(children),
            },
            ArtNodeInternalInner::Node256 { children } => ArtNodeInternalInner::Node256 {
                children: Node::duplicate_slots(children),
            },
        };
        ArtNodeInternal { header: self.header, inner }
    }
}

impl<V: Clone> Node<V> {
    /// `other` is laid out as this subtree is, node by node, with clones for values.
    pub closed spec fn alike(self, other: Self) -> bool
        decreases self, 1int,
    {
        match (self, other) {
            (Node::Empty, Node::Empty) => true,
            (Node::Leaf(a), Node::Leaf(b)) => a.key@ == b.key@ && cloned(a.value, b.value),
            (Node::Internal(a), Node::Internal(b)) => a.alike(*b),
            _ => false,
        }
    }

    /// A copy of each slot.
    pub(crate) fn duplicate_slots(slots: &Vec<Node<V>>) -> (r: Vec<Node<V>>)
        ensures
            r@.len() == slots@.len(),
            forall|i: int| 0 <= i < slots@.len() ==> (#[trigger] slots@[i]).alike(r@[i]),
        decreases slots, 0int,
    {
        let mut copy: Vec<Node<V>> = Vec::with_capacity(slots.len());
        let mut i: usize = 0;
        while i < slots.len()
            invariant
                i <= slots@.len(),
                copy@.len() == i,
                forall|j: int| 0 <= j < i ==> (#[trigger] slots@[j]).alike(copy@[j]),
            decreases slots@.len() - i,
        {
            let node = slots[i].duplicate();
            copy.push(node);
            i += 1;
        }
        copy
    }

    /// A copy of this subtree.
    pub(crate) fn duplicate(&self) -> (r: Self)
        ensures
            self.alike(r),
        decreases self, 2int,
    {
        match self {
            Node::Empty => Node::Empty,
            Node::Leaf(leaf) => Node::Leaf(Box::new((&**leaf).clone())),
            Node::Internal(internal) => Node::Internal(Box::new(internal.duplicate())),
        }
    }
}

/// A copy of a well-formed subtree is well formed, and holds the same keys
/// with clones of their values.
pub proof fn lemma_alike<V: Clone>(a: Node<V>, b: Node<V>, pre: Seq<u8>)
    requires
        a.alike(b),
        a is Empty || a.wf(pre),
    ensures
        a is Empty <==> b is Empty,
        a.wf(pre) ==> b.wf(pre),
        cloned_map(a@, b@),
    decreases a,
{
    match (a, b) {
        (Node::Internal(n), Node::Internal(m)) => {
            let d = pre.len() as int;
            let p = n.path(d);
            let at = d + n.header.partial_len;
            lemma_keys_of(*n, pre);
            let k0 = n.kids();
            let k1 = m.kids();
            assert forall|i: int| 0 <= i < k0.len() implies (k0[i] is Empty) == (k1[i] is Empty) by {
                assert(k0[i].alike(k1[i]));
            }
            match n.inner {
                ArtNodeInternalInner::Node48 { .. } => {
                    lemma_count_same(live_pred(k0), live_pred(k1), 48);
                },
                ArtNodeInternalInner::Node256 { .. } => {
                    lemma_count_same(live_pred(k0), live_pred(k1), 256);
                },
                _ => {},
            }
            assert(m.layout());
            assert forall|c: u8| m.slot(c) == n.slot(c) by {}
            assert forall|c: u8| m.has(c) implies m.child(c).wf(p.push(c)) && cloned_map(
                n.child(c)@,
                m.child(c)@,
            ) by {
                assert(n.has(c));
                assert(k0[n.slot(c)].alike(k1[n.slot(c)]));
                lemma_alike(n.child(c), m.child(c), p.push(c));
            }
            let b0 = n.rep_key()[at];
            assert(n@.contains_key(n.rep_key()));
            assert(n.has(b0));
            lemma_wf_intro(*m, pre, p, b0);
            lemma_keys_of(*m, pre);
            assert forall|k: Seq<u8>| n@.contains_key(k) == m@.contains_key(k) by {
                if n@.contains_key(k) {
                    assert(n.child(k[at])@.contains_key(k));
                    assert(m.slot(k[at]) == n.slot(k[at]));
                    assert(m.has(k[at]));
                    assert(cloned_map(n.child(k[at])@, m.child(k[at])@));
                    assert(m.child(k[at])@.contains_key(k));
                }
                if m@.contains_key(k) {
                    assert(m.child(k[at])@.contains_key(k));
                    assert(n.child(k[at])@.contains_key(k));
                }
            }
            assert forall|k: Seq<u8>| #[trigger] m@.contains_key(k) implies cloned(n@[k], m@[k]) by {
                assert(m.child(k[at])@.contains_key(k));
                assert(n.child(k[at])@.contains_key(k));
            }
        },
        (Node::Leaf(x), Node::Leaf(y)) => {
            assert forall|k: Seq<u8>| a@.contains_key(k) == b@.contains_key(k) by {}
        },
        _ => {},
    }
}

impl<V: Clone> Clone for ArtNodeLeaf<V> {
    /// A leaf with the same key and a clone of the value.
    fn clone(&self) -> (r: Self)
        ensures
            r.key_bytes() == self.key_bytes(),
            cloned(self.stored(), r.stored()),
    {
        ArtNodeLeaf { value: self.value.clone(), key: slice_to_vec(self.key.as_slice()) }
    }
}

impl<V: Clone> Clone for ArtNodeInternal<V> {
    /// A copy of this node and of all below it.
    fn clone(&self) -> (r: Self)
        ensures
            self.alike(r),
    {
        self.duplicate()
    }
}

impl<V: Clone> Clone for Node<V> {
    /// A copy of this subtree: the same nodes with the same keys, and a
    /// clone of each value.
    fn clone(&self) -> (r: Self)
        ensures
            self.alike(r),
    {
        self.duplicate()
    }
}

impl<V: Clone> Clone for ArtTree<V> {
    /// A copy of the map: the same keys, each with a clone of its value.
    fn clone(&self) -> (r: Self)
        ensures
            self.wf() ==> r.wf(),
            self.wf() ==> cloned_map(self@, r@),
    {
        self.duplicate()
    }
}

impl<V: Clone> Clone for U64ArtMap<V> {
    /// A copy of the map: the same keys, each with a clone of its value.
    fn clone(&self) -> (r: Self)
        ensures
            self.wf() ==> r.wf(),
            self.wf() ==> cloned_map(self@, r@),
    {
        self.duplicate()
    }
}

} // verus!
