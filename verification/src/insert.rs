//! Insertion: descend along the key, then replace a value, add a leaf, or
//! split a leaf or a compressed path.

use crate::find::{lemma_child_added, lemma_child_inserted, lemma_rebased};
use crate::keys::{compatible, lemma_common_len, lemma_not_exhausted, starts_with};
use crate::prefix::{cache_of, first_difference, lemma_first_difference};
use crate::node::{
    lemma_keys_of, lemma_wf_intro, ArtNodeInternal, ArtNodeLeaf, Node, MAX_PREFIX_LEN,
};
use crate::slots::take_slot;
use vstd::prelude::*;

verus! {

/// What cutting a compressed path at one index leaves: the cached bytes of
/// the part before the cut, the byte at the cut, and the part after it.
pub(crate) struct PathCut {
    pub head: [u8; 10],
    pub edge: u8,
    pub tail: [u8; 10],
    pub tail_len: usize,
}

impl<V> ArtNodeInternal<V> {
    /// The number of bytes of the compressed path that `key` matches from
    /// `depth` on, before the first that differs or the end of the key.
    ///
    /// The cached bytes are compared first. Where the path is longer than
    /// the cache, the rest is read from the least leaf below the node.
    #[verifier::loop_isolation(false)]
    pub(crate) fn compare_path(&self, key: &[u8], depth: usize, Ghost(pre): Ghost<Seq<u8>>) -> (r:
        usize)
        requires
            self.wf(pre),
            pre.len() == depth,
            depth <= key@.len(),
        ensures
            r <= self.header.partial_len,
            depth + r <= key@.len(),
            forall|j: int| depth <= j < depth + r ==> key@[j] == self.path(depth as int)[j],
            r < self.header.partial_len && depth + r < key@.len() ==> key@[depth + r] != self.path(
                depth as int,
            )[depth + r],
    {
        proof {
            lemma_keys_of(*self, pre);
        }
        let ghost p = self.path(depth as int);
        let matched: usize = self.header.check_prefix(key, depth);
        let cached: usize = self.header.cached_len();
        proof {
            assert forall|j: int| depth <= j < depth + matched implies key@[j] == p[j] by {
                assert(self.header.partial@[j - depth] == key@[depth + (j - depth)]);
            }
        }
        if matched < cached {
            return matched;
        }
        if self.header.partial_len <= MAX_PREFIX_LEN {
            return matched;
        }
        match self.minimum(Ghost(pre)) {
            None => matched,
            Some(leaf) => {
                assert(self@.contains_key(leaf.key@));
                let mut i: usize = matched;
                while i < self.header.partial_len && depth + i < key.len()
                    invariant
                        matched <= i <= self.header.partial_len,
                        depth + i <= key@.len(),
                        forall|j: int| depth <= j < depth + i ==> key@[j] == p[j],
                    decreases self.header.partial_len - i,
                {
                    assert(leaf.key@[depth + i] == p[depth + i]);
                    if leaf.key[depth + i] != key[depth + i] {
                        return i;
                    }
                    i += 1;
                }
                i
            },
        }
    }

    /// The index, within the compressed path, of the first byte at which
    /// `key` leaves the path; the path's length where it never does. A key
    /// that can be stored beside the keys below the node does not end
    /// before that index.
    pub(crate) fn prefix_mismatch(&self, key: &[u8], depth: usize, Ghost(pre): Ghost<Seq<u8>>) -> (r:
        usize)
        requires
            self.wf(pre),
            pre.len() == depth,
            starts_with(key@, pre),
            compatible(self.rep_key(), key@),
        ensures
            r <= self.header.partial_len,
            depth + r < key@.len(),
            forall|j: int| depth <= j < depth + r ==> key@[j] == self.path(depth as int)[j],
            r < self.header.partial_len ==> key@[depth + r] != self.path(depth as int)[depth + r],
            depth + r == first_difference(
                self.path(depth as int),
                key@,
                depth as int,
                depth + self.header.partial_len,
            ),
    {
        let r: usize = self.compare_path(key, depth, Ghost(pre));
        proof {
            lemma_keys_of(*self, pre);
            let rep = self.rep_key();
            let p = self.path(depth as int);
            lemma_first_difference(
                p,
                key@,
                depth as int,
                depth + self.header.partial_len,
                depth + r,
            );
            assert(self@.contains_key(rep));
            assert forall|j: int| 0 <= j < depth + r implies key@[j] == rep[j] by {
                assert(rep[j] == p[j]);
                if j < depth {
                    assert(key@[j] == pre[j]);
                    assert(p[j] == pre[j]);
                }
            }
            lemma_not_exhausted(rep, key@, depth + r);
        }
        r
    }

    /// Cuts the compressed path at index `diff`.
    ///
    /// A path that fits the cache is cut from the cache; a longer one is
    /// read from the least leaf below the node.
    #[verifier::loop_isolation(false)]
    pub(crate) fn cut_path(&self, depth: usize, diff: usize, Ghost(pre): Ghost<Seq<u8>>) -> (r:
        PathCut)
        requires
            self.wf(pre),
            pre.len() == depth,
            diff < self.header.partial_len,
        ensures
            r.tail_len == self.header.partial_len - diff - 1,
            r.edge == self.path(depth as int)[depth + diff],
            forall|i: int|
                0 <= i < diff && i < 10 ==> r.head@[i] == self.path(depth as int)[depth + i],
            forall|i: int|
                0 <= i < r.tail_len && i < 10 ==> r.tail@[i] == self.path(depth as int)[depth + diff
                    + 1 + i],
            r.head@ == cache_of(self.path(depth as int), depth as int, diff as int),
            r.tail@ == cache_of(
                self.path(depth as int),
                depth + diff + 1,
                self.header.partial_len - diff - 1,
            ),
    {
        proof {
            lemma_keys_of(*self, pre);
        }
        let ghost p = self.path(depth as int);
        let plen: usize = self.header.partial_len;
        let tail_len: usize = plen - diff - 1;
        let mut head: [u8; 10] = [0u8; 10];
        let mut tail: [u8; 10] = [0u8; 10];
        let mut i: usize = 0;
        while i < diff && i < MAX_PREFIX_LEN
            invariant
                i <= diff,
                i <= 10,
                forall|j: int| 0 <= j < i ==> head@[j] == p[depth + j],
                forall|j: int| i <= j < 10 ==> head@[j] == 0,
            decreases 10 - i,
        {
            head[i] = self.header.partial[i];
            i += 1;
        }
        assert(head@ =~= cache_of(p, depth as int, diff as int));
        if plen <= MAX_PREFIX_LEN {
            let edge: u8 = self.header.partial[diff];
            let mut j: usize = 0;
            while j < tail_len
                invariant
                    j <= tail_len,
                    forall|o: int| 0 <= o < j ==> tail@[o] == p[depth + diff + 1 + o],
                    forall|o: int| j <= o < 10 ==> tail@[o] == 0,
                decreases tail_len - j,
            {
                tail[j] = self.header.partial[diff + 1 + j];
                j += 1;
            }
            assert(tail@ =~= cache_of(p, depth + diff + 1, tail_len as int));
            PathCut { head, edge, tail, tail_len }
        } else {
            match self.minimum(Ghost(pre)) {
                None => PathCut { head, edge: 0, tail, tail_len },
                Some(leaf) => {
                    assert(self@.contains_key(leaf.key@));
                    assert(starts_with(leaf.key@, p));
                    let edge: u8 = leaf.key[depth + diff];
                    let mut j: usize = 0;
                    while j < tail_len && j < MAX_PREFIX_LEN
                        invariant
                            j <= tail_len,
                            j <= 10,
                            forall|o: int| 0 <= o < j ==> tail@[o] == p[depth + diff + 1 + o],
                            forall|o: int| j <= o < 10 ==> tail@[o] == 0,
                        decreases 10 - j,
                    {
                        tail[j] = leaf.key[depth + diff + 1 + j];
                        j += 1;
                    }
                    assert(tail@ =~= cache_of(p, depth + diff + 1, tail_len as int));
                    PathCut { head, edge, tail, tail_len }
                },
            }
        }
    }
}

/// A new node of the smallest class that has taken two children holds them
/// in the order of their edge bytes, and nothing else.
pub(crate) proof fn lemma_forks<V>(
    bare: ArtNodeInternal<V>,
    half: ArtNodeInternal<V>,
    full: ArtNodeInternal<V>,
    bx: u8,
    x: Node<V>,
    by: u8,
    y: Node<V>,
)
    requires
        bare.capacity() == 4,
        bare.count() == 0,
        bare.index_keys() == seq![0u8, 0u8, 0u8, 0u8],
        bare.kids() == seq![Node::<V>::Empty, Node::<V>::Empty, Node::<V>::Empty, Node::<V>::Empty],
        half.count() == 1,
        half.placed(bare, bx, x),
        full.count() == 2,
        full.layout(),
        full.placed(half, by, y),
        full.has(by),
        full.child(by) == y,
    ensures
        full.forks(bx, x, by, full.child(by)),
{
    let k1 = half.index_keys();
    let k2 = full.index_keys();
    let at1 = half.slot(bx);
    let at2 = full.slot(by);
    assert(at1 == 0);
    assert(k1 =~= seq![bx, 0u8, 0u8, 0u8]);
    assert(half.kids() =~= seq![x, Node::<V>::Empty, Node::<V>::Empty, Node::<V>::Empty]);
    assert(k2[0] < k2[1]);
    if at2 == 0 {
        assert(k2[1] == k1[0]);
        assert(k2 =~= seq![by, bx, 0u8, 0u8]);
        assert(full.kids() =~= seq![y, x, Node::<V>::Empty, Node::<V>::Empty]);
    } else {
        assert(at2 == 1);
        assert(k2[0] == k1[0]);
        assert(k2 =~= seq![bx, by, 0u8, 0u8]);
        assert(full.kids() =~= seq![x, y, Node::<V>::Empty, Node::<V>::Empty]);
    }
}

impl<V> Node<V> {
    /// Puts an interior node in the place of a leaf whose key differs from
    /// `key`. The node holds what the two keys share from `depth` on as its
    /// path, and the old leaf and a new one as its children.
    #[verifier::loop_isolation(false)]
    pub(crate) fn split_leaf(&mut self, key: &[u8], value: V, depth: usize, Ghost(pre): Ghost<
        Seq<u8>,
    >)
        requires
            *old(self) is Leaf,
            old(self).wf(pre),
            pre.len() == depth,
            starts_with(key@, pre),
            old(self)->Leaf_0.key@ != key@,
            compatible(old(self)->Leaf_0.key@, key@),
        ensures
            final(self).wf(pre),
            final(self)@ == old(self)@.insert(key@, value),
            final(self).inserted(*old(self), key@, value, pre),
    {
        let ghost stored = self->Leaf_0.key@;
        let ghost stored_value = self->Leaf_0.value;
        let new_leaf = ArtNodeLeaf::new(key, value);
        let (shared, old_edge): (usize, u8) = match self {
            Node::Leaf(leaf) => {
                let shared: usize = leaf.longest_common_prefix(&new_leaf, depth);
                proof {
                    assert(leaf.key@.len() == leaf.key.len());
                    lemma_common_len(stored, key@, depth as int);
                    assert forall|j: int| 0 <= j < depth + shared implies stored[j] == key@[j] by {
                        if j < depth {
                            assert(stored[j] == pre[j]);
                            assert(key@[j] == pre[j]);
                        }
                    }
                    if depth + shared == stored.len() || depth + shared == key@.len() {
                        let i = choose|i: int|
                            0 <= i < stored.len() && i < key@.len() && stored[i] != key@[i];
                        assert(stored[i] == key@[i]);
                    }
                }
                (shared, leaf.key[depth + shared])
            },
            _ => (0, 0),
        };
        let mut partial: [u8; 10] = [0u8; 10];
        let mut i: usize = 0;
        while i < shared && i < MAX_PREFIX_LEN
            invariant
                i <= shared,
                i <= 10,
                forall|j: int| 0 <= j < i ==> partial@[j] == key@[depth + j],
                forall|j: int| i <= j < 10 ==> partial@[j] == 0,
            decreases 10 - i,
        {
            partial[i] = key[depth + i];
            i += 1;
        }
        assert(partial@ =~= cache_of(key@, depth as int, shared as int));
        let new_edge: u8 = key[depth + shared];
        let mut fresh = ArtNodeInternal::new_node4(shared, partial);
        let old_node = take_slot(self);
        let new_node = Node::Leaf(Box::new(new_leaf));
        let ghost bare = fresh;
        fresh.add_child(old_edge, old_node);
        let ghost half = fresh;
        fresh.add_child(new_edge, new_node);
        proof {
            lemma_forks(bare, half, fresh, old_edge, old_node, new_edge, new_node);
            let m = depth + shared;
            let p = key@.subrange(0, m);
            assert forall|b: u8| fresh.has(b) implies fresh.child(b).wf(p.push(b)) by {
                if b == new_edge {
                    assert(fresh.child(b) == new_node);
                } else {
                    assert(b == old_edge);
                    assert(fresh.child(b) == old_node);
                }
            }
            lemma_wf_intro(fresh, pre, p, old_edge);
            lemma_keys_of(fresh, pre);
            assert(old_node@.contains_key(stored));
            assert(new_node@.contains_key(key@));
            assert(fresh.child(old_edge)@.contains_key(stored));
            assert(fresh.child(new_edge)@.contains_key(key@));
            assert(fresh@ =~= map![stored => stored_value].insert(key@, value));
        }
        *self = Node::Internal(Box::new(fresh));
    }

    /// Puts a new interior node above one whose compressed path `key` leaves
    /// at index `diff`. The new node takes the path up to there; the old node
    /// keeps the rest, under the byte at `diff`, beside the new leaf.
    pub(crate) fn split_internal(
        &mut self,
        key: &[u8],
        value: V,
        depth: usize,
        diff: usize,
        Ghost(pre): Ghost<Seq<u8>>,
    )
        requires
            *old(self) is Internal,
            old(self).wf(pre),
            pre.len() == depth,
            starts_with(key@, pre),
            diff < old(self)->Internal_0.header.partial_len,
            depth + diff < key@.len(),
            forall|j: int|
                depth <= j < depth + diff ==> key@[j] == old(self)->Internal_0.path(
                    depth as int,
                )[j],
            key@[depth + diff] != old(self)->Internal_0.path(depth as int)[depth + diff],
        ensures
            final(self).wf(pre),
            final(self)@ == old(self)@.insert(key@, value),
            !old(self)@.contains_key(key@),
            final(self).inserted(*old(self), key@, value, pre),
    {
        let ghost n0 = *self->Internal_0;
        let ghost whole = n0.path(depth as int);
        proof {
            lemma_keys_of(n0, pre);
        }
        let cut: PathCut = match self {
            Node::Internal(internal) => internal.cut_path(depth, diff, Ghost(pre)),
            _ => PathCut { head: [0u8; 10], edge: 0, tail: [0u8; 10], tail_len: 0 },
        };
        let mut old_node = take_slot(self);
        match &mut old_node {
            Node::Internal(internal) => {
                internal.header.partial_len = cut.tail_len;
                internal.header.partial = cut.tail;
            },
            _ => {},
        }
        let ghost n1 = *old_node->Internal_0;
        let ghost p = whole.subrange(0, depth + diff);
        proof {
            assert(starts_with(whole, p.push(cut.edge)));
            lemma_rebased(n0, n1, pre, p.push(cut.edge));
        }
        let new_edge: u8 = key[depth + diff];
        let new_node = Node::Leaf(Box::new(ArtNodeLeaf::new(key, value)));
        let mut fresh = ArtNodeInternal::new_node4(diff, cut.head);
        let ghost bare = fresh;
        fresh.add_child(cut.edge, old_node);
        let ghost half = fresh;
        fresh.add_child(new_edge, new_node);
        proof {
            lemma_forks(bare, half, fresh, cut.edge, old_node, new_edge, new_node);
            lemma_first_difference(
                whole,
                key@,
                depth as int,
                depth + n0.header.partial_len,
                depth + diff,
            );
            let m = depth + diff;
            assert forall|b: u8| fresh.has(b) implies fresh.child(b).wf(p.push(b)) by {
                if b == new_edge {
                    assert(fresh.child(b) == new_node);
                    assert forall|j: int| 0 <= j < m implies key@[j] == p[j] by {
                        if j < depth {
                            assert(key@[j] == pre[j]);
                            assert(whole[j] == pre[j]);
                        } else {
                            assert(key@[j] == whole[j]);
                        }
                    }
                } else {
                    assert(b == cut.edge);
                    assert(fresh.child(b) == old_node);
                }
            }
            assert(starts_with(p, pre)) by {
                assert forall|j: int| 0 <= j < pre.len() implies p[j] == pre[j] by {
                    assert(whole[j] == pre[j]);
                }
            }
            lemma_wf_intro(fresh, pre, p, cut.edge);
            lemma_keys_of(fresh, pre);
            assert(new_node@.contains_key(key@));
            assert(fresh.child(new_edge)@.contains_key(key@));
            if n0@.contains_key(key@) {
                assert(key@[m] == whole[m]);
            }
            assert forall|k: Seq<u8>| n0@.contains_key(k) implies fresh@.contains_key(k) by {
                assert(k[m] == whole[m]);
                assert(fresh.child(cut.edge)@.contains_key(k));
            }
            assert(fresh@ =~= n0@.insert(key@, value));
        }
        *self = Node::Internal(Box::new(fresh));
    }

    /// Stores `value` under `key` in this subtree, which sits at `depth`, and
    /// hands back the value that was stored under `key` before.
    pub(crate) fn recursive_insert(
        &mut self,
        key: &[u8],
        value: V,
        depth: usize,
        Ghost(pre): Ghost<Seq<u8>>,
    ) -> (r: Option<V>)
        requires
            *old(self) is Empty || old(self).wf(pre),
            pre.len() == depth,
            starts_with(key@, pre),
            forall|k: Seq<u8>| old(self)@.contains_key(k) ==> compatible(k, key@),
        ensures
            final(self).wf(pre),
            final(self)@ == old(self)@.insert(key@, value),
            r == if old(self)@.contains_key(key@) {
                Some(old(self)@[key@])
            } else {
                None::<V>
            },
            final(self).inserted(*old(self), key@, value, pre),
        decreases *old(self),
    {
        match self {
            Node::Empty => {
                *self = Node::Leaf(Box::new(ArtNodeLeaf::new(key, value)));
                assert(self@ =~= Map::<Seq<u8>, V>::empty().insert(key@, value));
                None
            },
            Node::Leaf(leaf) => {
                if leaf.matches(key) {
                    let mut previous: V = value;
                    std::mem::swap(&mut leaf.value, &mut previous);
                    assert(final(self)@ =~= old(self)@.insert(key@, value));
                    return Some(previous);
                }
                assert(old(self)@.contains_key(leaf.key@));
                self.split_leaf(key, value, depth, Ghost(pre));
                None
            },
            Node::Internal(internal) => {
                proof {
                    lemma_keys_of(**internal, pre);
                }
                let ghost n0 = **internal;
                let ghost n1 = **final(internal);
                let ghost p = n0.path(depth as int);
                let ghost rep = n0.rep_key();
                assert(n0@.contains_key(rep));
                let plen: usize = internal.header.partial_len;
                let mut next: usize = depth;
                if plen != 0 {
                    let diff: usize = internal.prefix_mismatch(key, depth, Ghost(pre));
                    if diff < plen {
                        self.split_internal(key, value, depth, diff, Ghost(pre));
                        return None;
                    }
                    next = depth + plen;
                } else {
                    proof {
                        assert forall|j: int| 0 <= j < depth implies key@[j] == rep[j] by {
                            assert(key@[j] == pre[j]);
                            assert(p[j] == pre[j]);
                            assert(rep[j] == p[j]);
                        }
                        lemma_not_exhausted(rep, key@, depth as int);
                    }
                }
                let c: u8 = key[next];
                proof {
                    assert forall|j: int| 0 <= j < next implies key@[j] == p[j] by {
                        if j < depth {
                            assert(key@[j] == pre[j]);
                            assert(p[j] == pre[j]);
                        } else {
                            assert(key@[j] == p[j]);
                        }
                    }
                    assert(starts_with(key@, p.push(c)));
                }
                if internal.find_child_index(c).is_some() {
                    let child = internal.find_child_mut(c).unwrap();
                    let r = child.recursive_insert(key, value, next + 1, Ghost(p.push(c)));
                    proof {
                        lemma_child_inserted(n0, n1, pre, c, key@, value);
                        if n0@.contains_key(key@) {
                            assert(n0.child(c)@.contains_key(key@));
                        }
                    }
                    r
                } else {
                    let leaf = Node::Leaf(Box::new(ArtNodeLeaf::new(key, value)));
                    internal.add_child(c, leaf);
                    proof {
                        lemma_child_added(n0, **internal, pre, c);
                        assert(leaf@.contains_key(key@));
                        assert(internal@ =~= n0@.insert(key@, value));
                    }
                    None
                }
            },
        }
    }
}

} // verus!
