//! The nodes of the tree, what they stand for, and when they are well formed.
//!
//! An interior node is read through two functions of an edge byte, `has` and
//! `child`, whatever its fan-out class. The map a node stands for, and its
//! well-formedness, are stated over those two alone.

use crate::count::{count_below, lemma_count_bound};
use crate::keys::starts_with;
use vstd::prelude::*;

verus! {

/// How many bytes of a compressed path an interior node caches inline.
pub const MAX_PREFIX_LEN: usize = 10;

/// A subtree.
#[derive(Debug)]
pub enum Node<V> {
    /// No keys at all. Only the root of an empty tree is `Empty` at rest.
    Empty,
    Leaf(Box<ArtNodeLeaf<V>>),
    Internal(Box<ArtNodeInternal<V>>),
}

/// A stored key, in full, with its value.
#[derive(Debug)]
pub struct ArtNodeLeaf<V> {
    pub value: V,
    pub(crate) key: Vec<u8>,
}

/// What every interior node carries, whatever its fan-out class.
#[derive(Debug, Clone, Copy)]
pub struct InternalNodeHeader {
    /// The true length of the compressed path; it may exceed the cache.
    pub(crate) partial_len: usize,
    pub(crate) num_children: u16,
    /// The first bytes of the compressed path.
    pub(crate) partial: [u8; 10],
}

/// An interior node: the compressed path that leads on from the edge to it,
/// and its children, each under the edge byte that follows the path.
#[derive(Debug)]
pub struct ArtNodeInternal<V> {
    pub(crate) header: InternalNodeHeader,
    pub(crate) inner: ArtNodeInternalInner<V>,
}

/// The four fan-out classes. Each holds its child slots in a vector of fixed
/// length: 4, 16, 48 or 256.
#[derive(Debug)]
#[allow(inconsistent_fields)]
pub enum ArtNodeInternalInner<V> {
    /// Edge bytes in ascending order, children in the same slots.
    Node4 { keys: [u8; 4], children: Vec<Node<V>> },
    /// As `Node4`, with sixteen slots.
    Node16 { keys: [u8; 16], children: Vec<Node<V>> },
    /// `keys[b]` is one more than the slot of the child under byte `b`, or 0.
    Node48 { keys: [u8; 256], children: Vec<Node<V>> },
    /// The child under byte `b` sits in slot `b`.
    Node256 { children: Vec<Node<V>> },
}

/// A subtree as it is laid out: every node with its class, its header, its
/// index of edge bytes and its slots, down to the leaves.
pub enum Shape<V> {
    Empty,
    Leaf { key: Seq<u8>, value: V },
    Internal {
        /// The number of child slots: 4, 16, 48 or 256.
        capacity: int,
        /// The number of children.
        count: int,
        /// The true length of the compressed path.
        partial_len: int,
        /// The cache of the compressed path.
        partial: Seq<u8>,
        /// The index of edge bytes; empty for the class of 256.
        keys: Seq<u8>,
        /// The slots, in slot order.
        slots: Seq<Shape<V>>,
    },
}

/// The counts that a node of `capacity` slots holds between operations. A
/// class starts one above the capacity of the class below it, and gives way
/// to that class only some way further down, so that a count that moves back
/// and forth across a capacity changes the class once.
pub open spec fn class_holds(capacity: int, count: int) -> bool {
    ||| capacity == 4 && 2 <= count <= 4
    ||| capacity == 16 && 4 <= count <= 16
    ||| capacity == 48 && 13 <= count <= 48
    ||| capacity == 256 && 38 <= count <= 256
}

/// The slots of `kids` that hold a node.
pub open spec fn live_pred<V>(kids: Seq<Node<V>>) -> spec_fn(int) -> bool {
    |i: int| !(kids[i] is Empty)
}

/// The bytes that `keys` maps to a slot.
pub open spec fn nonzero_pred(keys: Seq<u8>) -> spec_fn(int) -> bool {
    |i: int| keys[i] != 0
}

/// The first `n` entries of `keys` ascend strictly.
pub open spec fn sorted_below(keys: Seq<u8>, n: int) -> bool {
    forall|i: int, j: int| 0 <= i < j < n ==> keys[i] < keys[j]
}

/// Some index below `n` at which `keys` holds `b`, or -1 where none does.
pub open spec fn index_in(keys: Seq<u8>, n: int, b: u8) -> int {
    if exists|i: int| 0 <= i < n && i < keys.len() && keys[i] == b {
        choose|i: int| 0 <= i < n && i < keys.len() && keys[i] == b
    } else {
        -1
    }
}

/// Among keys that ascend strictly, a byte sits at one index only.
pub proof fn lemma_index_in(keys: Seq<u8>, n: int, i: int)
    requires
        sorted_below(keys, n),
        0 <= i < n,
        i < keys.len(),
    ensures
        index_in(keys, n, keys[i]) == i,
{
    let j = index_in(keys, n, keys[i]);
    if j < i {
        assert(keys[j] < keys[i]);
    } else if i < j {
        assert(keys[i] < keys[j]);
    }
}

/// The first `n` slots of `kids` all hold a node.
pub open spec fn live_below<V>(kids: Seq<Node<V>>, n: int) -> bool {
    forall|i: int| 0 <= i < n ==> !(#[trigger] kids[i] is Empty)
}

impl<V> ArtNodeInternal<V> {
    /// The child slots, in slot order.
    pub open(crate) spec fn kids(self) -> Seq<Node<V>> {
        match self.inner {
            ArtNodeInternalInner::Node4 { children, .. } => children@,
            ArtNodeInternalInner::Node16 { children, .. } => children@,
            ArtNodeInternalInner::Node48 { children, .. } => children@,
            ArtNodeInternalInner::Node256 { children } => children@,
        }
    }

    /// The number of child slots of this node's class.
    pub open(crate) spec fn capacity(self) -> int {
        match self.inner {
            ArtNodeInternalInner::Node4 { .. } => 4,
            ArtNodeInternalInner::Node16 { .. } => 16,
            ArtNodeInternalInner::Node48 { .. } => 48,
            ArtNodeInternalInner::Node256 { .. } => 256,
        }
    }

    /// The number of children.
    pub open(crate) spec fn count(self) -> int {
        self.header.num_children as int
    }

    /// The slot of the child under edge byte `b`, or -1 where there is none.
    pub open(crate) spec fn slot(self, b: u8) -> int {
        let nc = self.count();
        match self.inner {
            ArtNodeInternalInner::Node4 { keys, .. } => index_in(keys@, nc, b),
            ArtNodeInternalInner::Node16 { keys, .. } => index_in(keys@, nc, b),
            ArtNodeInternalInner::Node48 { keys, .. } => keys@[b as int] - 1,
            ArtNodeInternalInner::Node256 { children } => {
                if b < children@.len() && !(children@[b as int] is Empty) {
                    b as int
                } else {
                    -1
                }
            },
        }
    }

    /// There is a child under edge byte `b`.
    pub open(crate) spec fn has(self, b: u8) -> bool {
        0 <= self.slot(b) < self.kids().len()
    }

    /// The child under edge byte `b`, where there is one.
    pub open(crate) spec fn child(self, b: u8) -> Node<V> {
        self.kids()[self.slot(b)]
    }

    /// The true length of the compressed path.
    pub open(crate) spec fn path_len(self) -> nat {
        self.header.partial_len as nat
    }

    /// The cache of the compressed path.
    pub open(crate) spec fn path_cache(self) -> Seq<u8> {
        self.header.partial@
    }

    /// A node never holds more children than its class has slots.
    pub(crate) proof fn lemma_count_fits(self)
        requires
            self.layout(),
        ensures
            self.count() <= self.capacity(),
    {
        match self.inner {
            ArtNodeInternalInner::Node256 { children } => {
                lemma_count_bound(live_pred(children@), 256, 256);
            },
            _ => {},
        }
    }

    /// The index of edge bytes; empty for the class of 256.
    pub open(crate) spec fn index_keys(self) -> Seq<u8> {
        match self.inner {
            ArtNodeInternalInner::Node4 { keys, .. } => keys@,
            ArtNodeInternalInner::Node16 { keys, .. } => keys@,
            ArtNodeInternalInner::Node48 { keys, .. } => keys@,
            ArtNodeInternalInner::Node256 { .. } => Seq::empty(),
        }
    }

    /// The node as it is laid out.
    pub open(crate) spec fn shape(self) -> Shape<V>
        decreases self, 0int,
    {
        Shape::Internal {
            capacity: self.capacity(),
            count: self.count(),
            partial_len: self.header.partial_len as int,
            partial: self.header.partial@,
            keys: self.index_keys(),
            slots: Seq::new(
                self.kids().len(),
                |i: int|
                    if 0 <= i < self.kids().len() {
                        self.kids()[i].shape()
                    } else {
                        Shape::Empty
                    },
            ),
        }
    }

    /// The two nodes are of one class and map edge bytes to slots alike.
    pub open(crate) spec fn same_index(self, other: Self) -> bool {
        match (self.inner, other.inner) {
            (
                ArtNodeInternalInner::Node4 { keys: k1, .. },
                ArtNodeInternalInner::Node4 { keys: k2, .. },
            ) => k1@ == k2@,
            (
                ArtNodeInternalInner::Node16 { keys: k1, .. },
                ArtNodeInternalInner::Node16 { keys: k2, .. },
            ) => k1@ == k2@,
            (
                ArtNodeInternalInner::Node48 { keys: k1, .. },
                ArtNodeInternalInner::Node48 { keys: k2, .. },
            ) => k1@ == k2@,
            (ArtNodeInternalInner::Node256 { .. }, ArtNodeInternalInner::Node256 { .. }) => true,
            _ => false,
        }
    }

    /// What the class asks of the slots and of the count, whatever the keys
    /// below are.
    pub open(crate) spec fn layout(self) -> bool {
        let nc = self.count();
        let kids = self.kids();
        match self.inner {
            ArtNodeInternalInner::Node4 { keys, .. } => {
                &&& kids.len() == 4
                &&& nc <= 4
                &&& sorted_below(keys@, nc)
                &&& live_below(kids, nc)
            },
            ArtNodeInternalInner::Node16 { keys, .. } => {
                &&& kids.len() == 16
                &&& nc <= 16
                &&& sorted_below(keys@, nc)
                &&& live_below(kids, nc)
            },
            ArtNodeInternalInner::Node48 { keys, .. } => {
                &&& kids.len() == 48
                &&& nc <= 48
                &&& forall|b: int| 0 <= b < 256 ==> #[trigger] keys@[b] <= 48
                &&& forall|b: int|
                    0 <= b < 256 && #[trigger] keys@[b] != 0 ==> !(kids[keys@[b] - 1] is Empty)
                &&& forall|b1: int, b2: int|
                    0 <= b1 < 256 && 0 <= b2 < 256 && b1 != b2 && keys@[b1] != 0 ==> #[trigger] keys@[b1]
                        != #[trigger] keys@[b2]
                &&& count_below(nonzero_pred(keys@), 256) == nc
                &&& count_below(live_pred(kids), 48) == nc
            },
            ArtNodeInternalInner::Node256 { .. } => {
                &&& kids.len() == 256
                &&& count_below(live_pred(kids), 256) == nc
            },
        }
    }

    /// The count a node has between operations: at least two children, and
    /// no fewer than the class keeps before it gives way to the smaller one.
    pub open(crate) spec fn at_rest(self) -> bool {
        let nc = self.count();
        match self.inner {
            ArtNodeInternalInner::Node4 { .. } => 2 <= nc,
            ArtNodeInternalInner::Node16 { .. } => 4 <= nc,
            ArtNodeInternalInner::Node48 { .. } => 13 <= nc,
            ArtNodeInternalInner::Node256 { .. } => 38 <= nc,
        }
    }

    /// Some child of this node holds the key `k`.
    pub closed spec fn holds(self, k: Seq<u8>) -> bool
        decreases self, 0int,
    {
        exists|b: u8| self.has(b) && self.child(b).view().contains_key(k)
    }

    /// The edge byte of a child that holds the key `k`.
    pub closed spec fn edge_of(self, k: Seq<u8>) -> u8
        decreases self, 0int,
    {
        choose|b: u8| self.has(b) && self.child(b).view().contains_key(k)
    }

    /// The value that a child of this node holds for the key `k`.
    pub closed spec fn value_at(self, k: Seq<u8>) -> V
        decreases self, 1int,
    {
        let b = self.edge_of(k);
        if self.has(b) {
            self.child(b).view()[k]
        } else {
            arbitrary()
        }
    }

    /// The keys below this node, each with its value.
    pub closed spec fn view(self) -> Map<Seq<u8>, V>
        decreases self, 2int,
    {
        Map::new(|k: Seq<u8>| self.holds(k), |k: Seq<u8>| self.value_at(k))
    }

    /// Some key below this node. All of them share the node's path.
    pub closed spec fn rep_key(self) -> Seq<u8> {
        choose|k: Seq<u8>| self.view().contains_key(k)
    }

    /// The bytes that every key below this node begins with, for a node that
    /// sits at depth `d`: the edges down to it, then its compressed path.
    pub closed spec fn path(self, d: int) -> Seq<u8> {
        self.rep_key().subrange(0, d + self.header.partial_len)
    }

    /// The node is well formed at the end of the edges `pre`: it keeps the
    /// layout of its class and a count that the class allows; the keys
    /// below it begin with `pre`, go on with one path of the length that the
    /// header gives, of which the cache holds the first bytes, and are longer
    /// than that; and each child is well formed at the end of those bytes
    /// and of its own edge byte.
    pub closed spec fn wf(self, pre: Seq<u8>) -> bool
        decreases self, 0int,
    {
        let d = pre.len() as int;
        let len = self.header.partial_len as int;
        let rep = self.rep_key();
        &&& self.layout()
        &&& self.at_rest()
        &&& self.view().contains_key(rep)
        &&& starts_with(rep, pre)
        &&& d + len < rep.len()
        &&& forall|i: int| 0 <= i < len && i < 10 ==> self.header.partial@[i] == rep[d + i]
        &&& forall|b: u8|
            self.has(b) ==> self.child(b).wf(rep.subrange(0, d + len).push(b))
    }
}

impl<V> Node<V> {
    /// The keys of this subtree, each with its value.
    pub open(crate) spec fn view(self) -> Map<Seq<u8>, V>
        decreases self, 0int,
    {
        match self {
            Node::Empty => Map::empty(),
            Node::Leaf(l) => map![l.key@ => l.value],
            Node::Internal(n) => n.view(),
        }
    }

    /// The subtree is not empty and is well formed at the end of the edges
    /// `pre`: every key in it begins with `pre`, and every interior node in
    /// it keeps its class's layout and holds the path to its children.
    pub open(crate) spec fn wf(self, pre: Seq<u8>) -> bool
        decreases self, 0int,
    {
        match self {
            Node::Empty => false,
            Node::Leaf(l) => starts_with(l.key@, pre),
            Node::Internal(n) => n.wf(pre),
        }
    }

    /// The subtree as it is laid out.
    pub open(crate) spec fn shape(self) -> Shape<V>
        decreases self, 1int,
    {
        match self {
            Node::Empty => Shape::Empty,
            Node::Leaf(l) => Shape::Leaf { key: l.key@, value: l.value },
            Node::Internal(n) => n.shape(),
        }
    }

    /// Every interior node of the subtree holds a count that its class allows.
    pub closed spec fn classes_hold(self) -> bool
        decreases self,
    {
        match self {
            Node::Internal(n) => {
                &&& class_holds(n.capacity(), n.count())
                &&& forall|b: u8| n.has(b) ==> n.child(b).classes_hold()
            },
            _ => true,
        }
    }

    /// Some key of this subtree.
    pub open(crate) spec fn rep_key(self) -> Seq<u8> {
        match self {
            Node::Empty => Seq::empty(),
            Node::Leaf(l) => l.key@,
            Node::Internal(n) => n.rep_key(),
        }
    }

    /// Whether the subtree holds no key.
    pub fn is_empty(&self) -> (r: bool)
        ensures
            r == (self is Empty),
    {
        match self {
            Node::Empty => true,
            _ => false,
        }
    }
}

/// Every key of a well-formed subtree begins with the edges that lead to it,
/// and the subtree holds at least one key.
pub proof fn lemma_wf_keys<V>(node: Node<V>, pre: Seq<u8>)
    requires
        node.wf(pre),
    ensures
        node@.contains_key(node.rep_key()),
        forall|k: Seq<u8>| node@.contains_key(k) ==> starts_with(k, pre) && k.len() <= usize::MAX,
    decreases node,
{
    match node {
        Node::Empty => {},
        Node::Leaf(l) => {
            assert(l.key@.len() == l.key.len());
        },
        Node::Internal(n) => {
            lemma_keys_of(*n, pre);
            let p = n.path(pre.len() as int);
            assert forall|k: Seq<u8>| node@.contains_key(k) implies starts_with(k, pre) && k.len()
                <= usize::MAX by {
                assert(n@.contains_key(k));
                assert(starts_with(k, p));
                assert forall|i: int| 0 <= i < pre.len() implies k[i] == pre[i] by {
                    assert(k[i] == p[i]);
                }
            }
        },
    }
}

/// How the keys of a well-formed interior node are spread over its children:
/// each lies under the edge byte that it holds right after the node's path.
pub(crate) proof fn lemma_keys_of<V>(n: ArtNodeInternal<V>, pre: Seq<u8>)
    requires
        n.wf(pre),
    ensures
        n.layout(),
        n.at_rest(),
        n@.contains_key(n.rep_key()),
        n.path(pre.len() as int).len() == pre.len() + n.header.partial_len,
        starts_with(n.path(pre.len() as int), pre),
        forall|i: int|
            0 <= i < n.header.partial_len && i < 10 ==> n.header.partial@[i] == n.path(
                pre.len() as int,
            )[pre.len() + i],
        forall|b: u8| n.has(b) ==> n.child(b).wf(n.path(pre.len() as int).push(b)),
        forall|k: Seq<u8>| #[trigger]
            n@.contains_key(k) ==> {
                let m = pre.len() + n.header.partial_len;
                &&& starts_with(k, n.path(pre.len() as int))
                &&& m < k.len() <= usize::MAX
                &&& n.has(k[m])
                &&& n.child(k[m])@.contains_key(k)
                &&& n@[k] == n.child(k[m])@[k]
            },
        forall|b: u8, k: Seq<u8>|
            n.has(b) && #[trigger] n.child(b)@.contains_key(k) ==> {
                &&& n@.contains_key(k)
                &&& k.len() > pre.len() + n.header.partial_len
                &&& k[pre.len() + n.header.partial_len] == b
            },
    decreases n,
{
    let d = pre.len() as int;
    let len = n.header.partial_len as int;
    let m = d + len;
    let p = n.path(d);
    assert forall|b: u8, k: Seq<u8>| n.has(b) && #[trigger] n.child(b)@.contains_key(k) implies {
        &&& n@.contains_key(k)
        &&& k.len() > m
        &&& k[m] == b
        &&& starts_with(k, p)
        &&& k.len() <= usize::MAX
    } by {
        assert(p.len() == m);
        lemma_wf_keys(n.child(b), p.push(b));
        assert(starts_with(k, p.push(b)));
        assert(k[m] == p.push(b)[m]);
        assert forall|i: int| 0 <= i < p.len() implies k[i] == p[i] by {
            assert(k[i] == p.push(b)[i]);
        }
    }
    assert forall|k: Seq<u8>| #[trigger] n@.contains_key(k) implies {
        &&& starts_with(k, p)
        &&& m < k.len() <= usize::MAX
        &&& n.has(k[m])
        &&& n.child(k[m])@.contains_key(k)
        &&& n@[k] == n.child(k[m])@[k]
    } by {
        assert(n.holds(k));
        let b = n.edge_of(k);
        assert(n.has(b) && n.child(b)@.contains_key(k));
        assert(k[m] == b);
        assert(n@[k] == n.value_at(k));
    }
}

/// In a well-formed subtree every interior node holds a count that its
/// class allows.
pub proof fn lemma_classes_hold<V>(node: Node<V>, pre: Seq<u8>)
    requires
        node is Empty || node.wf(pre),
    ensures
        node.classes_hold(),
    decreases node,
{
    match node {
        Node::Internal(n) => {
            lemma_keys_of(*n, pre);
            n.lemma_count_fits();
            assert forall|b: u8| n.has(b) implies n.child(b).classes_hold() by {
                lemma_classes_hold(n.child(b), n.path(pre.len() as int).push(b));
            }
        },
        _ => {},
    }
}

/// In a well-formed interior node, the compressed path is a stretch of
/// every key below the node: each key begins with the edge bytes that lead
/// to the node, then holds the path, then the edge byte of the child it lies
/// under. The cache holds the first bytes of the path.
pub proof fn lemma_path_in_keys<V>(n: ArtNodeInternal<V>, pre: Seq<u8>)
    requires
        n.wf(pre),
    ensures
        n.path(pre.len() as int).len() == pre.len() + n.path_len(),
        starts_with(n.path(pre.len() as int), pre),
        forall|i: int|
            0 <= i < n.path_len() && i < 10 ==> n.path_cache()[i] == n.path(pre.len() as int)[pre.len()
                + i],
        forall|k: Seq<u8>| #[trigger] n@.contains_key(k) ==> starts_with(k, n.path(pre.len() as int)),
        forall|b: u8| n.has(b) ==> n.child(b).wf(n.path(pre.len() as int).push(b)),
{
    lemma_keys_of(n, pre);
}

/// A node that differs from another in one slot, which holds a subtree of
/// the same shape as before, has the same shape.
pub(crate) proof fn lemma_same_shape<V>(n0: ArtNodeInternal<V>, n1: ArtNodeInternal<V>, pos: int)
    requires
        n1.header == n0.header,
        n1.same_index(n0),
        0 <= pos < n0.kids().len(),
        n1.kids() == n0.kids().update(pos, n1.kids()[pos]),
        n1.kids()[pos].shape() == n0.kids()[pos].shape(),
    ensures
        n1.shape() == n0.shape(),
{
    let old_slots = n0.shape()->slots;
    let new_slots = n1.shape()->slots;
    assert(old_slots =~= new_slots) by {
        assert forall|i: int| 0 <= i < old_slots.len() implies old_slots[i] == new_slots[i] by {
            if i != pos {
                assert(n1.kids()[i] == n0.kids()[i]);
            }
        }
    }
}

/// A node whose children are well formed below a path `p` is well formed
/// itself, and `p` is its path.
pub(crate) proof fn lemma_wf_intro<V>(n: ArtNodeInternal<V>, pre: Seq<u8>, p: Seq<u8>, b0: u8)
    requires
        n.layout(),
        n.at_rest(),
        p.len() == pre.len() + n.header.partial_len,
        starts_with(p, pre),
        forall|i: int|
            0 <= i < n.header.partial_len && i < 10 ==> n.header.partial@[i] == p[pre.len() + i],
        forall|b: u8| n.has(b) ==> n.child(b).wf(p.push(b)),
        n.has(b0),
    ensures
        n.wf(pre),
        n.path(pre.len() as int) == p,
{
    let d = pre.len() as int;
    let len = n.header.partial_len as int;
    lemma_wf_keys(n.child(b0), p.push(b0));
    let k0 = n.child(b0).rep_key();
    assert(n.child(b0).view().contains_key(k0));
    assert(n.holds(k0));
    assert(n@.contains_key(k0));
    let rep = n.rep_key();
    assert(n@.contains_key(rep));
    assert(n.holds(rep));
    let b1 = n.edge_of(rep);
    lemma_wf_keys(n.child(b1), p.push(b1));
    assert(starts_with(rep, p.push(b1)));
    assert forall|i: int| 0 <= i < p.len() implies rep[i] == p[i] by {
        assert(rep[i] == p.push(b1)[i]);
    }
    assert(rep.subrange(0, d + len) =~= p);
}

} // verus!
