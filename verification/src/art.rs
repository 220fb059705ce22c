//! An ordered map from byte-string keys to values, kept as an adaptive
//! radix tree.

use crate::compat::{admitted, lemma_prefix_free};
use crate::duplicate::{cloned_map, lemma_alike};
use crate::iter::{ascending, lemma_entries, lists, visited};
use crate::keys::{is_greatest, is_least};
use crate::node::{
    class_holds, lemma_classes_hold, lemma_keys_of, lemma_wf_keys, ArtNodeInternal,
    ArtNodeInternalInner, Node, Shape,
};
use vstd::prelude::*;

verus! {

pub use crate::node::ArtNodeLeaf;

/// What the root of a tree is.
#[derive(Debug, Clone, Copy, PartialEq, Eq, Structural)]
pub enum NodeKind {
    Empty,
    Leaf,
    Node4,
    Node16,
    Node48,
    Node256,
}

/// An ordered map keyed by byte strings. Keys are ordered byte by byte, as
/// unsigned bytes; no key of the map is a proper prefix of another.
#[derive(Debug)]
pub struct ArtTree<V> {
    root: Node<V>,
    size: u64,
}

impl<V> View for ArtTree<V> {
    type V = Map<Seq<u8>, V>;

    /// The keys of the map, each with its value.
    closed spec fn view(&self) -> Map<Seq<u8>, V> {
        self.root@
    }
}

impl<V> ArtNodeInternal<V> {
    /// The class of this node.
    pub(crate) fn kind(&self) -> (r: NodeKind)
        ensures
            r == if self.capacity() == 4 {
                NodeKind::Node4
            } else if self.capacity() == 16 {
                NodeKind::Node16
            } else if self.capacity() == 48 {
                NodeKind::Node48
            } else {
                NodeKind::Node256
            },
    {
        match &self.inner {
            ArtNodeInternalInner::Node4 { .. } => NodeKind::Node4,
            ArtNodeInternalInner::Node16 { .. } => NodeKind::Node16,
            ArtNodeInternalInner::Node48 { .. } => NodeKind::Node48,
            ArtNodeInternalInner::Node256 { .. } => NodeKind::Node256,
        }
    }
}

impl<V: Clone> ArtTree<V> {
    /// A copy of the map: the same keys, each with a clone of its value.
    pub(crate) fn duplicate(&self) -> (r: Self)
        ensures
            self.wf() ==> r.wf(),
            self.wf() ==> cloned_map(self@, r@),
    {
        let root = self.root.duplicate();
        proof {
            if self.wf() {
                lemma_alike(self.root, root, Seq::empty());
                assert(root@.dom() =~= self.root@.dom());
            }
        }
        ArtTree { root, size: self.size }
    }
}

impl<V> ArtTree<V> {
    /// The tree is well formed: its nodes keep the layout of their classes
    /// and the paths to their children, and its size is the number of its keys.
    pub closed spec fn wf(self) -> bool {
        &&& self.root is Empty || self.root.wf(Seq::empty())
        &&& self@.dom().finite()
        &&& self.size == self@.dom().len()
    }

    /// The root of the tree.
    pub(crate) closed spec fn root_node(self) -> Node<V> {
        self.root
    }

    /// What holds of the root of a well-formed tree.
    pub(crate) proof fn lemma_root(self)
        requires
            self.wf(),
        ensures
            self.root_node() is Empty || self.root_node().wf(Seq::empty()),
            self.root_node()@ == self@,
    {
    }

    /// `key` can be stored: no key of the map is a proper prefix of it, and
    /// it is a proper prefix of none.
    pub open spec fn admits(self, key: Seq<u8>) -> bool {
        admitted(self@, key)
    }

    /// The tree as it is laid out: every node with its class, its header
    /// and its slots.
    pub closed spec fn shape(self) -> Shape<V> {
        self.root.shape()
    }

    /// The tree is what storing `value` under `key` makes of `old`, node by
    /// node: a new leaf, with a new node of the smallest class above it where
    /// a leaf or a compressed path is split, and a step to the next class
    /// where the node that takes the leaf is full.
    pub closed spec fn inserted(self, old: Self, key: Seq<u8>, value: V) -> bool {
        self.root.inserted(old.root, key, value, Seq::empty())
    }

    /// The tree is what taking `key` out makes of `old`, node by node: the
    /// leaf goes, and the node above it closes the gap, then merges into its
    /// last child or moves to the smaller class where its count asks for it.
    pub closed spec fn deleted(self, old: Self, key: Seq<u8>) -> bool {
        self.root.deleted(old.root, key, Seq::empty())
    }

    /// What the root is: nothing, a leaf, or an interior node of one of the
    /// four classes.
    pub closed spec fn root_class(self) -> NodeKind {
        match self.root {
            Node::Empty => NodeKind::Empty,
            Node::Leaf(_) => NodeKind::Leaf,
            Node::Internal(n) => if n.capacity() == 4 {
                NodeKind::Node4
            } else if n.capacity() == 16 {
                NodeKind::Node16
            } else if n.capacity() == 48 {
                NodeKind::Node48
            } else {
                NodeKind::Node256
            },
        }
    }

    /// The number of children of the root; 0 where the root is no interior node.
    pub closed spec fn root_count(self) -> int {
        match self.root {
            Node::Internal(n) => n.count(),
            _ => 0,
        }
    }

    /// Every interior node of the tree holds a count that its class allows.
    pub closed spec fn classes_hold(self) -> bool {
        self.root.classes_hold()
    }

    /// The root of a well-formed tree holds a count that its class allows,
    /// and so does every interior node below it. The tree has no root just
    /// where it has no key.
    pub proof fn lemma_root_class(self)
        requires
            self.wf(),
        ensures
            self.classes_hold(),
            self.root_class() == NodeKind::Node4 ==> class_holds(4, self.root_count()),
            self.root_class() == NodeKind::Node16 ==> class_holds(16, self.root_count()),
            self.root_class() == NodeKind::Node48 ==> class_holds(48, self.root_count()),
            self.root_class() == NodeKind::Node256 ==> class_holds(256, self.root_count()),
            self@.len() == 0 <==> self.root_class() == NodeKind::Empty,
    {
        lemma_classes_hold(self.root, Seq::empty());
        match self.root {
            Node::Internal(n) => {
                lemma_keys_of(*n, Seq::empty());
                n.lemma_count_fits();
                lemma_wf_keys(self.root, Seq::empty());
            },
            Node::Leaf(_) => {
                lemma_wf_keys(self.root, Seq::empty());
            },
            Node::Empty => {},
        }
    }

    /// The layout of a tree whose root is nothing is `Shape::Empty`.
    pub proof fn lemma_shape_of_root(self)
        ensures
            self.root_class() == NodeKind::Empty ==> self.shape() == Shape::<V>::Empty,
    {
    }

    /// The pairs of the map in the order in which `iter` visits them.
    pub closed spec fn entries(self) -> Seq<(Seq<u8>, V)> {
        self.root.entries()
    }

    /// The entries are the pairs of the map, each once, in strictly
    /// ascending order of their keys.
    pub proof fn lemma_entries_sorted(self)
        requires
            self.wf(),
        ensures
            ascending(self.entries()),
            lists(self.entries(), self@),
    {
        lemma_entries(self.root, Seq::empty());
    }

    /// No key of a well-formed tree is a proper prefix of another: every
    /// stored key can be stored again.
    pub proof fn lemma_prefix_free(self, key: Seq<u8>)
        requires
            self.wf(),
            self@.contains_key(key),
        ensures
            self.admits(key),
    {
        assert forall|k: Seq<u8>| self@.contains_key(k) implies crate::keys::compatible(k, key) by {
            lemma_prefix_free(self.root, Seq::empty(), k, key);
        }
    }

    /// A well-formed tree holds finitely many keys.
    pub proof fn lemma_finite(self)
        requires
            self.wf(),
        ensures
            self@.dom().finite(),
    {
    }

    /// The value under `key`, if the map has one.
    pub open spec fn value_of(self, key: Seq<u8>) -> Option<V> {
        if self@.contains_key(key) {
            Some(self@[key])
        } else {
            None
        }
    }

    /// An empty map.
    pub fn new() -> (r: Self)
        ensures
            r.wf(),
            r@ == Map::<Seq<u8>, V>::empty(),
    {
        Self { root: Node::Empty, size: 0 }
    }

    /// What the root is.
    pub fn root_kind(&self) -> (r: NodeKind)
        ensures
            r == self.root_class(),
    {
        match &self.root {
            Node::Empty => NodeKind::Empty,
            Node::Leaf(_) => NodeKind::Leaf,
            Node::Internal(n) => n.kind(),
        }
    }

    /// The number of children of the root.
    pub fn root_children(&self) -> (r: usize)
        ensures
            r == self.root_count(),
    {
        match &self.root {
            Node::Internal(n) => n.header.num_children as usize,
            _ => 0,
        }
    }

    /// The number of keys.
    pub fn size(&self) -> (r: u64)
        requires
            self.wf(),
        ensures
            r == self@.len(),
    {
        self.size
    }

    /// The value stored under `key`.
    pub fn get(&self, key: &[u8]) -> (r: Option<&V>)
        requires
            self.wf(),
        ensures
            r == if self@.contains_key(key@) {
                Some(&self@[key@])
            } else {
                None
            },
    {
        self.root.lookup(key, 0, Ghost(Seq::empty()))
    }

    /// The value stored under `key`, to be changed in place. The tree is
    /// then what storing the new value under `key` makes of it: nothing but
    /// the value changes.
    pub fn get_mut(&mut self, key: &[u8]) -> (r: Option<&mut V>)
        requires
            old(self).wf(),
        ensures
            final(self).wf(),
            match r {
                Some(v) => {
                    &&& old(self)@.contains_key(key@)
                    &&& *v == old(self)@[key@]
                    &&& final(self)@ == old(self)@.insert(key@, *final(v))
                    &&& final(self).inserted(*old(self), key@, *final(v))
                },
                None => !old(self)@.contains_key(key@) && final(self)@ == old(self)@,
            },
    {
        let ghost before = self@;
        match self.root.lookup_mut(key, 0, Ghost(Seq::empty())) {
            Some(v) => {
                proof {
                    assert(before.insert(key@, *final(v)).dom() =~= before.dom());
                }
                Some(v)
            },
            None => None,
        }
    }

    /// The least key with its value.
    pub fn minimum(&self) -> (r: Option<(&Vec<u8>, &V)>)
        requires
            self.wf(),
        ensures
            match r {
                Some((k, v)) => is_least(self@.dom(), k@) && *v == self@[k@],
                None => self@ == Map::<Seq<u8>, V>::empty(),
            },
    {
        match self.root.minimum(Ghost(Seq::empty())) {
            Some(leaf) => Some((&leaf.key, &leaf.value)),
            None => None,
        }
    }

    /// The greatest key with its value.
    pub fn maximum(&self) -> (r: Option<(&Vec<u8>, &V)>)
        requires
            self.wf(),
        ensures
            match r {
                Some((k, v)) => is_greatest(self@.dom(), k@) && *v == self@[k@],
                None => self@ == Map::<Seq<u8>, V>::empty(),
            },
    {
        match self.root.maximum(Ghost(Seq::empty())) {
            Some(leaf) => Some((&leaf.key, &leaf.value)),
            None => None,
        }
    }

    /// The least key, with its value to be changed in place.
    pub fn minimum_mut(&mut self) -> (r: Option<(&Vec<u8>, &mut V)>)
        requires
            old(self).wf(),
        ensures
            final(self).wf(),
            match r {
                Some((k, v)) => {
                    &&& is_least(old(self)@.dom(), k@)
                    &&& *v == old(self)@[k@]
                    &&& final(self)@ == old(self)@.insert(k@, *final(v))
                    &&& final(self).inserted(*old(self), k@, *final(v))
                },
                None => old(self)@ == Map::<Seq<u8>, V>::empty() && final(self)@ == old(self)@,
            },
    {
        let ghost before = self@;
        match self.root.minimum_mut(Ghost(Seq::empty())) {
            Some((k, v)) => {
                proof {
                    assert(before.insert(k@, *final(v)).dom() =~= before.dom());
                }
                Some((k, v))
            },
            None => None,
        }
    }

    /// The greatest key, with its value to be changed in place.
    pub fn maximum_mut(&mut self) -> (r: Option<(&Vec<u8>, &mut V)>)
        requires
            old(self).wf(),
        ensures
            final(self).wf(),
            match r {
                Some((k, v)) => {
                    &&& is_greatest(old(self)@.dom(), k@)
                    &&& *v == old(self)@[k@]
                    &&& final(self)@ == old(self)@.insert(k@, *final(v))
                    &&& final(self).inserted(*old(self), k@, *final(v))
                },
                None => old(self)@ == Map::<Seq<u8>, V>::empty() && final(self)@ == old(self)@,
            },
    {
        let ghost before = self@;
        match self.root.maximum_mut(Ghost(Seq::empty())) {
            Some((k, v)) => {
                proof {
                    assert(before.insert(k@, *final(v)).dom() =~= before.dom());
                }
                Some((k, v))
            },
            None => None,
        }
    }

    /// Takes the least key out of the map, with its value.
    pub fn pop_first(&mut self) -> (r: Option<(Vec<u8>, V)>)
        requires
            old(self).wf(),
        ensures
            final(self).wf(),
            match r {
                Some((k, v)) => {
                    &&& is_least(old(self)@.dom(), k@)
                    &&& v == old(self)@[k@]
                    &&& final(self)@ == old(self)@.remove(k@)
                    &&& final(self).deleted(*old(self), k@)
                },
                None => old(self)@ == Map::<Seq<u8>, V>::empty() && final(self)@ == old(self)@,
            },
    {
        let mut root: Node<V> = Node::Empty;
        std::mem::swap(&mut self.root, &mut root);
        let (rest, popped) = root.pop_first(Ghost(Seq::empty()));
        self.root = rest;
        if popped.is_some() {
            self.size -= 1;
        }
        popped
    }

    /// Takes the greatest key out of the map, with its value.
    pub fn pop_last(&mut self) -> (r: Option<(Vec<u8>, V)>)
        requires
            old(self).wf(),
        ensures
            final(self).wf(),
            match r {
                Some((k, v)) => {
                    &&& is_greatest(old(self)@.dom(), k@)
                    &&& v == old(self)@[k@]
                    &&& final(self)@ == old(self)@.remove(k@)
                    &&& final(self).deleted(*old(self), k@)
                },
                None => old(self)@ == Map::<Seq<u8>, V>::empty() && final(self)@ == old(self)@,
            },
    {
        let mut root: Node<V> = Node::Empty;
        std::mem::swap(&mut self.root, &mut root);
        let (rest, popped) = root.pop_last(Ghost(Seq::empty()));
        self.root = rest;
        if popped.is_some() {
            self.size -= 1;
        }
        popped
    }

    /// Stores `value` under `key`, and hands back the value that was stored
    /// under `key` before, if any. The size grows by one where `key` is new.
    pub fn insert(&mut self, key: &[u8], value: V) -> (r: Option<V>)
        requires
            old(self).wf(),
            old(self).admits(key@),
            old(self)@.len() < u64::MAX,
        ensures
            final(self).wf(),
            final(self)@ == old(self)@.insert(key@, value),
            r == old(self).value_of(key@),
            final(self).inserted(*old(self), key@, value),
    {
        let result = self.root.recursive_insert(key, value, 0, Ghost(Seq::empty()));
        if result.is_none() {
            self.size += 1;
        }
        result
    }

    /// Whether `key` can be stored: whether no key of the map is a proper
    /// prefix of it, and it is a proper prefix of none.
    pub fn admits_key(&self, key: &[u8]) -> (r: bool)
        requires
            self.wf(),
        ensures
            r == self.admits(key@),
    {
        self.root.admits_key(key, 0, Ghost(Seq::empty()))
    }

    /// Stores `value` under `key` where the map can take it, as `insert`
    /// does, and hands `value` back where it cannot: where `key` is a proper
    /// prefix of a stored key or the other way round, or the map holds as
    /// many keys as its size can count.
    pub fn try_insert(&mut self, key: &[u8], value: V) -> (r: Result<Option<V>, V>)
        requires
            old(self).wf(),
        ensures
            final(self).wf(),
            match r {
                Ok(previous) => {
                    &&& old(self).admits(key@)
                    &&& old(self)@.len() < u64::MAX
                    &&& final(self)@ == old(self)@.insert(key@, value)
                    &&& previous == old(self).value_of(key@)
                    &&& final(self).inserted(*old(self), key@, value)
                },
                Err(back) => {
                    &&& !(old(self).admits(key@) && old(self)@.len() < u64::MAX)
                    &&& back == value
                    &&& *final(self) == *old(self)
                },
            },
    {
        if self.size < u64::MAX && self.admits_key(key) {
            Ok(self.insert(key, value))
        } else {
            Err(value)
        }
    }

    /// Takes `key` out of the map, and hands back the value that was stored
    /// under it, if any. The size drops by one where `key` was present; where
    /// it was absent, no node of the tree changes.
    pub fn delete(&mut self, key: &[u8]) -> (r: Option<V>)
        requires
            old(self).wf(),
        ensures
            final(self).wf(),
            final(self)@ == old(self)@.remove(key@),
            r == old(self).value_of(key@),
            r is None ==> final(self).shape() == old(self).shape(),
            final(self).deleted(*old(self), key@),
    {
        let mut root: Node<V> = Node::Empty;
        std::mem::swap(&mut self.root, &mut root);
        let (rest, result) = root.recursive_delete(key, 0, Ghost(Seq::empty()));
        self.root = rest;
        if result.is_some() {
            self.size -= 1;
        }
        result
    }

    /// Visits the values in strictly ascending order of their keys, and
    /// stops at the first on which `callback` gives `true`. Says whether it
    /// stopped there; a visit of an empty map does not.
    pub fn iter<CB>(&mut self, mut callback: CB) -> (r: bool) where CB: FnMut(&V) -> bool
        requires
            old(self).wf(),
            forall|k: Seq<u8>|
                old(self)@.contains_key(k) ==> call_requires(callback, (&old(self)@[k],)),
        ensures
            *final(self) == *old(self),
            ascending(old(self).entries()),
            lists(old(self).entries(), old(self)@),
            visited(callback, old(self).entries(), r),
    {
        proof {
            lemma_entries(self.root, Seq::empty());
        }
        self.root.recursive_iter(&mut callback, Ghost(Seq::empty()))
    }
}

} // verus!
