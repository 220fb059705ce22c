//! The nodes of a tree are given by its keys: two well-formed trees that
//! stand for the same map branch at the same places. They can differ only in
//! the class that a node has where two classes allow its count, and in the
//! slots that its children take.

use crate::art::ArtTree;
use crate::count::lemma_count_two;
use crate::node::{
    lemma_index_in, lemma_keys_of, lemma_path_in_keys, lemma_wf_keys, live_pred, nonzero_pred,
    ArtNodeInternal, ArtNodeInternalInner, Node,
};
use vstd::prelude::*;

verus! {

impl<V> ArtNodeInternal<V> {
    /// A node with two children or more has children under two edge bytes.
    pub(crate) proof fn lemma_has_two(self)
        requires
            self.layout(),
            self.count() >= 2,
        ensures
            exists|b1: u8, b2: u8| b1 != b2 && self.has(b1) && self.has(b2),
    {
        match self.inner {
            ArtNodeInternalInner::Node4 { keys, .. } => {
                lemma_index_in(keys@, self.count(), 0);
                lemma_index_in(keys@, self.count(), 1);
                assert(keys@[0] < keys@[1]);
                assert(keys@[0] != keys@[1] && self.has(keys@[0]) && self.has(keys@[1]));
            },
            ArtNodeInternalInner::Node16 { keys, .. } => {
                lemma_index_in(keys@, self.count(), 0);
                lemma_index_in(keys@, self.count(), 1);
                assert(keys@[0] < keys@[1]);
                assert(keys@[0] != keys@[1] && self.has(keys@[0]) && self.has(keys@[1]));
            },
            ArtNodeInternalInner::Node48 { keys, .. } => {
                let f = nonzero_pred(keys@);
                lemma_count_two(f, 256);
                let (i, j) = choose|i: int, j: int|
                    0 <= i < j < 256 && #[trigger] f(i) && #[trigger] f(j);
                assert((i as u8) != (j as u8) && self.has(i as u8) && self.has(j as u8));
            },
            ArtNodeInternalInner::Node256 { children } => {
                let f = live_pred(children@);
                lemma_count_two(f, 256);
                let (i, j) = choose|i: int, j: int|
                    0 <= i < j < 256 && #[trigger] f(i) && #[trigger] f(j);
                assert((i as u8) != (j as u8) && self.has(i as u8) && self.has(j as u8));
            },
        }
    }

    /// The keys below a well-formed node leave each other right after the
    /// node's path: two of them differ in the byte that follows it.
    pub(crate) proof fn lemma_branches(self, pre: Seq<u8>)
        requires
            self.wf(pre),
        ensures
            exists|k1: Seq<u8>, k2: Seq<u8>|
                #![trigger self@.contains_key(k1), self@.contains_key(k2)]
                self@.contains_key(k1) && self@.contains_key(k2) && k1[pre.len()
                    + self.header.partial_len] != k2[pre.len() + self.header.partial_len],
    {
        lemma_keys_of(self, pre);
        self.lemma_has_two();
        let (b1, b2) = choose|b1: u8, b2: u8| b1 != b2 && self.has(b1) && self.has(b2);
        let p = self.path(pre.len() as int);
        lemma_wf_keys(self.child(b1), p.push(b1));
        lemma_wf_keys(self.child(b2), p.push(b2));
        let k1 = self.child(b1).rep_key();
        let k2 = self.child(b2).rep_key();
        assert(self.child(b1)@.contains_key(k1));
        assert(self.child(b2)@.contains_key(k2));
        assert(self@.contains_key(k1) && self@.contains_key(k2));
    }
}

impl<V> Node<V> {
    /// The two subtrees branch alike: leaf for leaf with the same key and
    /// value, and interior node for interior node with a path of the same
    /// length and the same cached bytes, and with children that branch alike
    /// under the same edge bytes.
    pub closed spec fn branches_as(self, other: Self) -> bool
        decreases self,
    {
        match (self, other) {
            (Node::Empty, Node::Empty) => true,
            (Node::Leaf(a), Node::Leaf(b)) => a.key@ == b.key@ && a.value == b.value,
            (Node::Internal(a), Node::Internal(b)) => {
                &&& a.header.partial_len == b.header.partial_len
                &&& forall|i: int|
                    0 <= i < a.header.partial_len && i < 10 ==> a.header.partial@[i]
                        == b.header.partial@[i]
                &&& forall|c: u8| a.has(c) == b.has(c)
                &&& forall|c: u8| a.has(c) ==> a.child(c).branches_as(b.child(c))
            },
            _ => false,
        }
    }
}

/// Of two well-formed nodes with the same keys, neither has the longer path.
proof fn lemma_path_length<V>(n: ArtNodeInternal<V>, m: ArtNodeInternal<V>, pre: Seq<u8>)
    requires
        n.wf(pre),
        m.wf(pre),
        n@ == m@,
    ensures
        n.header.partial_len <= m.header.partial_len,
{
    let d = pre.len() as int;
    let ln = n.header.partial_len as int;
    let lm = m.header.partial_len as int;
    if lm < ln {
        m.lemma_branches(pre);
        let (k1, k2) = choose|k1: Seq<u8>, k2: Seq<u8>|
            #![trigger m@.contains_key(k1), m@.contains_key(k2)]
            m@.contains_key(k1) && m@.contains_key(k2) && k1[d + lm] != k2[d + lm];
        lemma_path_in_keys(n, pre);
        let pn = n.path(d);
        assert(n@.contains_key(k1));
        assert(n@.contains_key(k2));
        assert(k1[d + lm] == pn[d + lm]);
        assert(k2[d + lm] == pn[d + lm]);
    }
}

/// Two well-formed nodes with the same keys hold the same path.
proof fn lemma_same_path<V>(n: ArtNodeInternal<V>, m: ArtNodeInternal<V>, pre: Seq<u8>)
    requires
        n.wf(pre),
        m.wf(pre),
        n@ == m@,
    ensures
        n.header.partial_len == m.header.partial_len,
        n.path(pre.len() as int) == m.path(pre.len() as int),
        forall|i: int|
            0 <= i < n.header.partial_len && i < 10 ==> n.header.partial@[i] == m.header.partial@[i],
{
    let d = pre.len() as int;
    lemma_path_length(n, m, pre);
    lemma_path_length(m, n, pre);
    lemma_path_in_keys(n, pre);
    lemma_path_in_keys(m, pre);
    let pn = n.path(d);
    let pm = m.path(d);
    n.lemma_branches(pre);
    let rep = choose|k: Seq<u8>| n@.contains_key(k);
    assert(n@.contains_key(rep) && m@.contains_key(rep));
    assert(pn =~= pm) by {
        assert forall|i: int| 0 <= i < pn.len() implies pn[i] == pm[i] by {
            assert(rep[i] == pn[i]);
            assert(rep[i] == pm[i]);
        }
    }
    assert forall|i: int| 0 <= i < n.header.partial_len && i < 10 implies n.header.partial@[i]
        == m.header.partial@[i] by {
        assert(n.path_cache()[i] == pn[d + i]);
        assert(m.path_cache()[i] == pm[d + i]);
    }
}

/// Two well-formed nodes with the same keys have children under the same
/// edge bytes, and the same keys below each.
proof fn lemma_same_edge<V>(n: ArtNodeInternal<V>, m: ArtNodeInternal<V>, pre: Seq<u8>, c: u8)
    requires
        n.wf(pre),
        m.wf(pre),
        n@ == m@,
        n.header.partial_len == m.header.partial_len,
        n.has(c),
    ensures
        m.has(c),
        n.child(c)@ == m.child(c)@,
{
    let d = pre.len() as int;
    let at = d + n.header.partial_len;
    lemma_keys_of(n, pre);
    lemma_keys_of(m, pre);
    lemma_wf_keys(n.child(c), n.path(d).push(c));
    let k0 = n.child(c).rep_key();
    assert(n.child(c)@.contains_key(k0));
    assert(m@.contains_key(k0));
    assert(k0[at] == c);
    assert forall|k: Seq<u8>| n.child(c)@.contains_key(k) == m.child(c)@.contains_key(k) by {
        if n.child(c)@.contains_key(k) {
            assert(m@.contains_key(k));
        }
        if m.child(c)@.contains_key(k) {
            assert(n@.contains_key(k));
        }
    }
    assert forall|k: Seq<u8>| n.child(c)@.contains_key(k) implies n.child(c)@[k] == m.child(c)@[k] by {
        assert(n@.contains_key(k));
        assert(m@.contains_key(k));
    }
    assert(n.child(c)@ =~= m.child(c)@);
}

/// Two well-formed subtrees at the end of the same edges that hold the same
/// keys with the same values branch alike.
pub proof fn lemma_canonical<V>(a: Node<V>, b: Node<V>, pre: Seq<u8>)
    requires
        a is Empty || a.wf(pre),
        b is Empty || b.wf(pre),
        a@ == b@,
    ensures
        a.branches_as(b),
    decreases a,
{
    if !(a is Empty) {
        lemma_wf_keys(a, pre);
    }
    if !(b is Empty) {
        lemma_wf_keys(b, pre);
    }
    match (a, b) {
        (Node::Internal(n), Node::Internal(m)) => {
            let d = pre.len() as int;
            lemma_same_path(*n, *m, pre);
            lemma_path_in_keys(*n, pre);
            lemma_path_in_keys(*m, pre);
            let p = n.path(d);
            assert forall|c: u8| n.has(c) == m.has(c) by {
                if n.has(c) {
                    lemma_same_edge(*n, *m, pre, c);
                }
                if m.has(c) {
                    lemma_same_edge(*m, *n, pre, c);
                }
            }
            assert forall|c: u8| n.has(c) implies n.child(c).branches_as(m.child(c)) by {
                lemma_same_edge(*n, *m, pre, c);
                lemma_canonical(n.child(c), m.child(c), p.push(c));
            }
            assert(a.branches_as(b));
        },
        (Node::Internal(n), Node::Leaf(l)) => {
            n.lemma_branches(pre);
            let (k1, k2) = choose|k1: Seq<u8>, k2: Seq<u8>|
                #![trigger n@.contains_key(k1), n@.contains_key(k2)]
                n@.contains_key(k1) && n@.contains_key(k2) && k1[pre.len()
                    + n.header.partial_len] != k2[pre.len() + n.header.partial_len];
            assert(b@.contains_key(k1) && b@.contains_key(k2));
            assert(k1 == l.key@ && k2 == l.key@);
        },
        (Node::Leaf(l), Node::Internal(m)) => {
            m.lemma_branches(pre);
            let (k1, k2) = choose|k1: Seq<u8>, k2: Seq<u8>|
                #![trigger m@.contains_key(k1), m@.contains_key(k2)]
                m@.contains_key(k1) && m@.contains_key(k2) && k1[pre.len()
                    + m.header.partial_len] != k2[pre.len() + m.header.partial_len];
            assert(a@.contains_key(k1) && a@.contains_key(k2));
            assert(k1 == l.key@ && k2 == l.key@);
        },
        (Node::Leaf(x), Node::Leaf(y)) => {
            assert(a@.contains_key(x.key@));
            assert(b@.contains_key(x.key@));
            assert(x.key@ == y.key@);
            assert(a@[x.key@] == x.value);
            assert(b@[y.key@] == y.value);
            assert(a.branches_as(b));
        },
        (Node::Internal(n), Node::Empty) => {
            assert(a@.contains_key(a.rep_key()));
            assert(b@.contains_key(a.rep_key()));
        },
        (Node::Empty, Node::Internal(m)) => {
            assert(b@.contains_key(b.rep_key()));
            assert(a@.contains_key(b.rep_key()));
        },
        (Node::Leaf(x), Node::Empty) => {
            assert(a@.contains_key(x.key@));
            assert(b@.contains_key(x.key@));
        },
        (Node::Empty, Node::Leaf(y)) => {
            assert(b@.contains_key(y.key@));
            assert(a@.contains_key(y.key@));
        },
        (Node::Empty, Node::Empty) => {
            assert(a.branches_as(b));
        },
    }
}

impl<V> ArtTree<V> {
    /// The two trees branch alike: node for node they hold paths of the
    /// same length and children under the same edge bytes, down to leaves
    /// with the same keys and values.
    pub closed spec fn branches_as(self, other: Self) -> bool {
        self.root_node().branches_as(other.root_node())
    }

    /// Two well-formed trees that stand for the same map branch alike: the
    /// map gives every node of the tree, up to the class the node has and
    /// the slots its children take.
    pub proof fn law_canonical(self, other: Self)
        requires
            self.wf(),
            other.wf(),
            self@ == other@,
        ensures
            self.branches_as(other),
    {
        self.lemma_root();
        other.lemma_root();
        lemma_canonical(self.root_node(), other.root_node(), Seq::empty());
    }
}

} // verus!
