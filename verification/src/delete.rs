//! Deletion: descend along the key, take the leaf out, and repair the
//! interior nodes on the way back up.

use crate::find::{lemma_child_shrunk, lemma_rebased};
use crate::keys::starts_with;
use crate::steps::joined_cache;
use crate::node::{
    index_in, lemma_index_in, lemma_keys_of, lemma_same_shape, lemma_wf_intro, lemma_wf_keys,
    ArtNodeInternal, ArtNodeInternalInner, Node, MAX_PREFIX_LEN,
};
use vstd::prelude::*;

verus! {

/// What losing its only key's child does to a well-formed node that keeps
/// two or more children: it stays well formed, without that key.
pub(crate) proof fn lemma_child_gone<V>(
    n0: ArtNodeInternal<V>,
    n1: ArtNodeInternal<V>,
    pre: Seq<u8>,
    c: u8,
    key: Seq<u8>,
)
    requires
        n0.wf(pre),
        n0.has(c),
        forall|k: Seq<u8>| n0.child(c)@.contains_key(k) ==> k == key,
        n1.layout(),
        n1.at_rest(),
        n1.header.partial_len == n0.header.partial_len,
        n1.header.partial == n0.header.partial,
        !n1.has(c),
        n1.same_children_but(n0, c),
    ensures
        n1.wf(pre),
        n1@ == n0@.remove(key),
{
    let d = pre.len() as int;
    let p = n0.path(d);
    let m = d + n0.header.partial_len;
    lemma_keys_of(n0, pre);
    n1.lemma_has_some();
    let b0 = choose|b: u8| n1.has(b);
    assert forall|b: u8| n1.has(b) implies n1.child(b).wf(p.push(b)) by {
        assert(n0.has(b));
        assert(n1.child(b) == n0.child(b));
    }
    lemma_wf_intro(n1, pre, p, b0);
    lemma_keys_of(n1, pre);
    lemma_wf_keys(n0.child(c), p.push(c));
    assert(n0.child(c)@.contains_key(key));
    assert forall|k: Seq<u8>| n1@.contains_key(k) == n0@.remove(key).contains_key(k) by {
        if n1@.contains_key(k) {
            assert(n0.has(k[m]));
            assert(n0.child(k[m])@.contains_key(k));
        }
        if n0@.contains_key(k) && k != key {
            assert(k[m] != c);
            assert(n1.has(k[m]));
            assert(n1.child(k[m])@.contains_key(k));
        }
    }
    assert forall|k: Seq<u8>| n1@.contains_key(k) implies n1@[k] == n0@[k] by {
        assert(n0.has(k[m]));
        assert(n0.child(k[m])@.contains_key(k));
    }
    assert(n1@ =~= n0@.remove(key));
}

/// A subtree of which something is left once a key is out is not one that
/// the key alone made up.
pub(crate) proof fn lemma_left_over<V>(old: Node<V>, left: Node<V>, key: Seq<u8>, pre: Seq<u8>)
    requires
        old.wf(pre),
        left.wf(pre),
        left@ == old@.remove(key),
    ensures
        !Node::<V>::Empty.deleted(old, key, pre),
{
    lemma_wf_keys(old, pre);
    lemma_wf_keys(left, pre);
    let other = left.rep_key();
    assert(left@.contains_key(other));
    assert(old@.contains_key(other) && other != key);
    match old {
        Node::Internal(n) => {
            if old@.contains_key(key) {
                let c = key[pre.len() + n.header.partial_len];
                let below = n.path(pre.len() as int).push(c);
                if n.has(c) && Node::<V>::Empty.deleted(n.child(c), key, below) {
                    lemma_keys_of(*n, pre);
                    n.lemma_count_fits();
                    assert forall|gone: ArtNodeInternal<V>|
                        #[trigger] gone.unplaced(*n, c) && gone.count() == n.count() - 1
                            && gone.capacity() == 4 && gone.count() == 1 implies !gone.collapsed(
                        Node::<V>::Empty,
                    ) by {
                        n.lemma_last_child(gone, c);
                    }
                    assert(!Node::<V>::Empty.settled(*n, c));
                }
            }
        },
        _ => {},
    }
}

impl<V> ArtNodeInternal<V> {
    /// The last child of a node of the smallest class that has lost one of
    /// two children is a subtree, so that the node does not merge into
    /// nothing.
    pub(crate) proof fn lemma_last_child(self, gone: Self, c: u8)
        requires
            self.layout(),
            self.at_rest(),
            self.has(c),
            gone.unplaced(self, c),
            gone.capacity() == 4,
            gone.count() == 1,
            gone.count() == self.count() - 1,
        ensures
            !gone.collapsed(Node::<V>::Empty),
    {
        let at = self.slot(c);
        let kept = gone.kids()[0];
        if at == 0 {
            assert(kept == self.kids()[1]);
        } else {
            assert(kept == self.kids()[0]);
        }
        assert(!(kept is Empty));
    }

    /// Whether the node is of the smallest class and is left with one child.
    pub(crate) fn is_single(&self) -> (r: bool)
        ensures
            r == (self.capacity() == 4 && self.count() == 1),
    {
        match &self.inner {
            ArtNodeInternalInner::Node4 { .. } => self.header.num_children == 1,
            _ => false,
        }
    }

    /// The edge byte in the first slot of a node of the smallest class.
    pub(crate) fn first_edge(&self) -> (r: u8)
        requires
            self.capacity() == 4,
        ensures
            self.inner matches ArtNodeInternalInner::Node4 { keys, .. } && r == keys@[0],
    {
        match &self.inner {
            ArtNodeInternalInner::Node4 { keys, .. } => keys[0],
            _ => 0,
        }
    }

    /// Merges a node that is left with one child into that child.
    ///
    /// A leaf takes the node's place as it is. An interior child takes it
    /// with the node's path, the edge byte and its own path joined into one:
    /// the length is the sum, and the cache holds the first bytes of the whole.
    #[verifier::loop_isolation(false)]
    pub(crate) fn collapse(
        self,
        Ghost(n0): Ghost<Self>,
        Ghost(pre): Ghost<Seq<u8>>,
        Ghost(c): Ghost<u8>,
        Ghost(key): Ghost<Seq<u8>>,
    ) -> (r: Node<V>)
        requires
            n0.wf(pre),
            n0.has(c),
            forall|k: Seq<u8>| n0.child(c)@.contains_key(k) ==> k == key,
            self.layout(),
            self.capacity() == 4,
            self.count() == 1,
            self.header.partial_len == n0.header.partial_len,
            self.header.partial == n0.header.partial,
            !self.has(c),
            self.same_children_but(n0, c),
        ensures
            r.wf(pre),
            r@ == n0@.remove(key),
            self.collapsed(r),
    {
        let ghost d = pre.len() as int;
        let ghost p = n0.path(d);
        let ghost m = d + n0.header.partial_len;
        let mut this = self;
        let b: u8 = this.first_edge();
        proof {
            lemma_keys_of(n0, pre);
            match this.inner {
                ArtNodeInternalInner::Node4 { keys, .. } => {
                    lemma_index_in(keys@, 1, 0);
                    assert forall|o: u8| this.has(o) implies o == b by {
                        assert(index_in(keys@, 1, o) == 0);
                    }
                },
                _ => {},
            }
            assert(this.has(b));
            assert(n0.has(b));
            assert(this.child(b) == n0.child(b));
            lemma_wf_keys(n0.child(b), p.push(b));
            lemma_wf_keys(n0.child(c), p.push(c));
            assert(n0.child(c)@.contains_key(key));
        }
        let ghost t0 = this;
        let child = this.lift_child(0);
        proof {
            assert(child == n0.child(b));
            assert forall|k: Seq<u8>| child@.contains_key(k) == n0@.remove(key).contains_key(
                k,
            ) by {
                if n0@.contains_key(k) && k != key {
                    assert(n0.has(k[m]));
                    assert(n0.child(k[m])@.contains_key(k));
                    if k[m] != c {
                        assert(t0.has(k[m]));
                    }
                }
            }
            assert(child@ =~= n0@.remove(key));
        }
        let head_len: usize = this.header.partial_len;
        match child {
            Node::Internal(mut sub) => {
                let ghost below = *sub;
                proof {
                    lemma_keys_of(below, p.push(b));
                    assert(below@.contains_key(below.rep_key()));
                }
                let ghost ps = below.path(d + head_len + 1);
                let ghost head = this.header.partial@;
                let mut merged: [u8; 10] = this.header.partial;
                let mut at: usize = this.header.cached_len();
                assert forall|i: int| 0 <= i < at implies merged@[i] == ps[d + i] by {
                    assert(merged@[i] == p[d + i]);
                    assert(ps[d + i] == p.push(b)[d + i]);
                }
                if at < MAX_PREFIX_LEN {
                    merged[at] = b;
                    assert(ps[d + at] == p.push(b)[d + at]);
                    at += 1;
                    let mut i: usize = 0;
                    while at < MAX_PREFIX_LEN && i < sub.header.partial_len
                        invariant
                            at == head_len + 1 + i,
                            at <= 10,
                            i <= sub.header.partial_len,
                            *sub == below,
                            forall|j: int| 0 <= j < at ==> merged@[j] == ps[d + j],
                            forall|j: int| 0 <= j < head_len ==> merged@[j] == head[j],
                            merged@[head_len as int] == b,
                            forall|j: int|
                                head_len < j < at ==> merged@[j] == below.header.partial@[j - head_len
                                    - 1],
                            forall|j: int| at <= j < 10 ==> merged@[j] == head[j],
                        decreases 10 - at,
                    {
                        merged[at] = sub.header.partial[i];
                        at += 1;
                        i += 1;
                    }
                }
                sub.header.partial = merged;
                sub.header.partial_len = head_len + 1 + sub.header.partial_len;
                proof {
                    assert(merged@ =~= joined_cache(
                        head,
                        head_len as int,
                        b,
                        below.header.partial@,
                        below.header.partial_len as int,
                    ));
                    assert(starts_with(ps, pre)) by {
                        assert forall|j: int| 0 <= j < pre.len() implies ps[j] == pre[j] by {
                            assert(ps[j] == p.push(b)[j]);
                            assert(p[j] == pre[j]);
                        }
                    }
                    lemma_rebased(below, *sub, p.push(b), pre);
                }
                Node::Internal(sub)
            },
            other => {
                proof {
                    assert(other.wf(p.push(b)));
                    if other is Leaf {
                        let stored = other->Leaf_0.key@;
                        assert(other@.contains_key(stored));
                        assert forall|j: int| 0 <= j < pre.len() implies stored[j] == pre[j] by {
                            assert(stored[j] == p.push(b)[j]);
                            assert(p[j] == pre[j]);
                        }
                    }
                }
                other
            },
        }
    }
}

impl<V> ArtNodeInternal<V> {
    /// Puts back what is left of a child after a key was taken out of it,
    /// and repairs the node. The child was lifted out of slot `pos` of the
    /// node `n0`, where it sat under edge byte `c`.
    ///
    /// A child that is left empty goes: the node closes the gap, and then
    /// merges into its last child, or moves to the smaller class, where its
    /// count asks for it.
    pub(crate) fn settle(
        internal: Box<Self>,
        c: u8,
        pos: usize,
        rest: Node<V>,
        Ghost(n0): Ghost<Self>,
        Ghost(pre): Ghost<Seq<u8>>,
        Ghost(key): Ghost<Seq<u8>>,
    ) -> (r: Node<V>)
        requires
            n0.wf(pre),
            n0.has(c),
            pos == n0.slot(c),
            internal.header == n0.header,
            internal.same_index(n0),
            internal.kids() == n0.kids().update(pos as int, Node::Empty),
            rest is Empty || rest.wf(n0.path(pre.len() as int).push(c)),
            rest@ == n0.child(c)@.remove(key),
            pre.len() + n0.header.partial_len < key.len(),
            key[pre.len() + n0.header.partial_len] == c,
        ensures
            r.wf(pre),
            r@ == n0@.remove(key),
            rest.shape() == n0.child(c).shape() ==> r.shape() == n0.shape(),
            rest is Empty ==> r.settled(n0, c),
            !(rest is Empty) ==> (r matches Node::Internal(m) && m.header == n0.header
                && m.same_index(n0) && m.kids() == n0.kids().update(n0.slot(c), rest)),
    {
        let mut internal = internal;
        proof {
            lemma_keys_of(n0, pre);
        }
        if rest.is_empty() {
            proof {
                assert forall|k: Seq<u8>| n0.child(c)@.contains_key(k) implies k == key by {
                    if k != key {
                        assert(n0.child(c)@.remove(key).contains_key(k));
                    }
                }
            }
            internal.remove_child(c, pos, Ghost(n0));
            let ghost gone = *internal;
            if internal.is_single() {
                let merged = (*internal).collapse(Ghost(n0), Ghost(pre), Ghost(c), Ghost(key));
                proof {
                    assert(gone.unplaced(n0, c) && gone.collapsed(merged));
                }
                return merged;
            }
            internal.shrink();
            proof {
                lemma_child_gone(n0, *internal, pre, c, key);
                assert(gone.unplaced(n0, c));
            }
            Node::Internal(internal)
        } else {
            internal.set_child(pos, rest);
            proof {
                assert(internal.kids() =~= n0.kids().update(pos as int, rest));
                lemma_child_shrunk(n0, *internal, pre, c, key);
                if rest.shape() == n0.child(c).shape() {
                    lemma_same_shape(n0, *internal, pos as int);
                }
            }
            Node::Internal(internal)
        }
    }
}

impl<V> Node<V> {
    /// Takes `key` out of this subtree, which sits at `depth`, and hands
    /// back what is left of the subtree with the value that was stored.
    ///
    /// Only the cached bytes of a compressed path are compared on the way
    /// down; the leaf's full key settles whether anything is removed.
    pub(crate) fn recursive_delete(self, key: &[u8], depth: usize, Ghost(pre): Ghost<Seq<u8>>) -> (r:
        (Self, Option<V>))
        requires
            self is Empty || self.wf(pre),
            pre.len() == depth,
        ensures
            r.0 is Empty || r.0.wf(pre),
            r.0@ == self@.remove(key@),
            r.1 == if self@.contains_key(key@) {
                Some(self@[key@])
            } else {
                None::<V>
            },
            r.1 is None ==> r.0.shape() == self.shape(),
            r.0.deleted(self, key@, pre),
        decreases self,
    {
        match self {
            Node::Empty => {
                assert(self@ =~= self@.remove(key@));
                (Node::Empty, None)
            },
            Node::Leaf(leaf) => {
                if leaf.matches(key) {
                    assert(self@.remove(key@) =~= Map::<Seq<u8>, V>::empty());
                    let owned = *leaf;
                    (Node::Empty, Some(owned.value))
                } else {
                    assert(self@ =~= self@.remove(key@));
                    (Node::Leaf(leaf), None)
                }
            },
            Node::Internal(mut internal) => {
                let ghost n0 = *internal;
                let ghost p = n0.path(depth as int);
                proof {
                    lemma_keys_of(n0, pre);
                    assert(n0@.contains_key(n0.rep_key()));
                }
                let mut next: usize = depth;
                if internal.header.partial_len != 0 {
                    if depth > key.len() {
                        assert(self@ =~= self@.remove(key@));
                        return (Node::Internal(internal), None);
                    }
                    let matched: usize = internal.header.check_prefix(key, depth);
                    if matched != internal.header.cached_len() {
                        assert(self@ =~= self@.remove(key@));
                        return (Node::Internal(internal), None);
                    }
                    next = depth + internal.header.partial_len;
                }
                if next >= key.len() {
                    assert(self@ =~= self@.remove(key@));
                    return (Node::Internal(internal), None);
                }
                let c: u8 = key[next];
                let pos: usize = match internal.find_child_index(c) {
                    None => {
                        assert(self@ =~= self@.remove(key@));
                        return (Node::Internal(internal), None);
                    },
                    Some(pos) => pos,
                };
                let child = internal.lift_child(pos);
                let (rest, removed) = child.recursive_delete(key, next + 1, Ghost(p.push(c)));
                proof {
                    if n0@.contains_key(key@) {
                        assert(n0.child(c)@.contains_key(key@));
                    }
                }
                let ghost left = rest;
                let node = ArtNodeInternal::settle(
                    internal,
                    c,
                    pos,
                    rest,
                    Ghost(n0),
                    Ghost(pre),
                    Ghost(key@),
                );
                proof {
                    if n0@.contains_key(key@) {
                        lemma_wf_keys(n0.child(c), p.push(c));
                        if !(left is Empty) {
                            lemma_wf_keys(left, p.push(c));
                            lemma_left_over(n0.child(c), left, key@, p.push(c));
                        }
                    }
                }
                (node, removed)
            },
        }
    }
}

} // verus!
