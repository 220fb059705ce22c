//! Whether a key can be stored beside the keys of a subtree: in a radix
//! tree no key may be a proper prefix of another.

use crate::keys::{compatible, diverge, lemma_common_len, starts_with};
use crate::node::{lemma_keys_of, Node};
use vstd::prelude::*;

verus! {

/// `key` is compatible with every key of `m`.
pub open spec fn admitted<V>(m: Map<Seq<u8>, V>, key: Seq<u8>) -> bool {
    forall|k: Seq<u8>| m.contains_key(k) ==> compatible(k, key)
}

/// Whether two keys that agree below `depth` are equal or differ at an
/// index inside both.
pub fn keys_compatible(a: &[u8], b: &[u8], depth: usize) -> (r: bool)
    requires
        depth <= a@.len(),
        depth <= b@.len(),
        forall|j: int| 0 <= j < depth ==> a@[j] == b@[j],
    ensures
        r == compatible(a@, b@),
{
    let shared: usize = crate::keys::common_prefix_len(a, b, depth);
    let a_len: usize = a.len();
    let b_len: usize = b.len();
    proof {
        lemma_common_len(a@, b@, depth as int);
    }
    let end: usize = depth + shared;
    if end == a_len && end == b_len {
        assert(a@ =~= b@);
        true
    } else if end < a_len && end < b_len {
        assert(a@[end as int] != b@[end as int]);
        true
    } else {
        proof {
            if diverge(a@, b@) {
                let i = choose|i: int| 0 <= i < a@.len() && i < b@.len() && a@[i] != b@[i];
                assert(a@[i] == b@[i]);
            }
        }
        false
    }
}

/// No key of a well-formed subtree is a proper prefix of another.
pub proof fn lemma_prefix_free<V>(node: Node<V>, pre: Seq<u8>, k1: Seq<u8>, k2: Seq<u8>)
    requires
        node is Empty || node.wf(pre),
        node@.contains_key(k1),
        node@.contains_key(k2),
    ensures
        compatible(k1, k2),
    decreases node,
{
    match node {
        Node::Internal(n) => {
            lemma_keys_of(*n, pre);
            let at = pre.len() + n.header.partial_len;
            if k1[at] == k2[at] {
                lemma_prefix_free(
                    n.child(k1[at]),
                    n.path(pre.len() as int).push(k1[at]),
                    k1,
                    k2,
                );
            } else {
                assert(diverge(k1, k2));
            }
        },
        _ => {},
    }
}

impl<V> Node<V> {
    /// Whether `key` can be stored in this subtree, which sits at `depth`:
    /// whether it is compatible with every key of the subtree.
    pub(crate) fn admits_key(&self, key: &[u8], depth: usize, Ghost(pre): Ghost<Seq<u8>>) -> (r:
        bool)
        requires
            self is Empty || self.wf(pre),
            pre.len() == depth,
            starts_with(key@, pre),
        ensures
            r == admitted(self@, key@),
        decreases self,
    {
        match self {
            Node::Empty => true,
            Node::Leaf(leaf) => {
                proof {
                    assert(leaf.key@.len() == leaf.key.len());
                    assert forall|j: int| 0 <= j < depth implies leaf.key@[j] == key@[j] by {
                        assert(leaf.key@[j] == pre[j]);
                        assert(key@[j] == pre[j]);
                    }
                    assert(self@.contains_key(leaf.key@));
                }
                keys_compatible(leaf.key.as_slice(), key, depth)
            },
            Node::Internal(internal) => {
                proof {
                    lemma_keys_of(**internal, pre);
                }
                let ghost p = internal.path(depth as int);
                let ghost rep = internal.rep_key();
                let plen: usize = internal.header.partial_len;
                let matched: usize = internal.compare_path(key, depth, Ghost(pre));
                assert(self@.contains_key(rep));
                proof {
                    assert forall|j: int| 0 <= j < depth + matched implies key@[j] == p[j] by {
                        if j < depth {
                            assert(key@[j] == pre[j]);
                            assert(p[j] == pre[j]);
                        }
                    }
                }
                if depth + matched == key.len() {
                    proof {
                        if diverge(rep, key@) {
                            let i = choose|i: int|
                                0 <= i < rep.len() && i < key@.len() && rep[i] != key@[i];
                            assert(rep[i] == p[i]);
                            assert(key@[i] == p[i]);
                        }
                        assert(rep.len() != key@.len());
                        assert(!compatible(rep, key@));
                    }
                    return false;
                }
                let at: usize = depth + matched;
                if matched < plen {
                    proof {
                        assert forall|k: Seq<u8>| self@.contains_key(k) implies compatible(
                            k,
                            key@,
                        ) by {
                            assert(k[at as int] == p[at as int]);
                        }
                    }
                    return true;
                }
                let c: u8 = key[at];
                match internal.find_child(c) {
                    None => {
                        proof {
                            assert forall|k: Seq<u8>| self@.contains_key(k) implies compatible(
                                k,
                                key@,
                            ) by {
                                assert(internal.has(k[at as int]));
                            }
                        }
                        true
                    },
                    Some(child) => {
                        proof {
                            assert(starts_with(key@, p.push(c)));
                        }
                        let r: bool = child.admits_key(key, at + 1, Ghost(p.push(c)));
                        proof {
                            if r {
                                assert forall|k: Seq<u8>| self@.contains_key(k) implies compatible(
                                    k,
                                    key@,
                                ) by {
                                    if k[at as int] == c {
                                        assert(child@.contains_key(k));
                                    } else {
                                        assert(k[at as int] != key@[at as int]);
                                    }
                                }
                            } else {
                                let k = choose|k: Seq<u8>|
                                    child@.contains_key(k) && !compatible(k, key@);
                                assert(self@.contains_key(k));
                            }
                        }
                        r
                    },
                }
            },
        }
    }
}

} // verus!
