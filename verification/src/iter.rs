//! In-order traversal: the entries of a subtree in ascending order of their
//! keys, and a visit of their values that can stop early.

use crate::keys::{lemma_lex_lt_by_byte, lex_lt};
use crate::node::{lemma_keys_of, ArtNodeInternal, Node};
use vstd::prelude::*;

verus! {

/// The keys of `entries` ascend strictly.
pub open spec fn ascending<V>(entries: Seq<(Seq<u8>, V)>) -> bool {
    forall|i: int, j: int|
        0 <= i < j < entries.len() ==> lex_lt((#[trigger] entries[i]).0, (#[trigger] entries[j]).0)
}

/// `entries` lists each pair of `m` and nothing else.
pub open spec fn lists<V>(entries: Seq<(Seq<u8>, V)>, m: Map<Seq<u8>, V>) -> bool {
    &&& forall|i: int|
        0 <= i < entries.len() ==> m.contains_key((#[trigger] entries[i]).0) && m[entries[i].0]
            == entries[i].1
    &&& forall|k: Seq<u8>|
        m.contains_key(k) ==> exists|i: int| 0 <= i < entries.len() && (#[trigger] entries[i]).0 == k
}

/// The callback accepts the value of every entry.
pub open spec fn accepts<K, V, CB: FnMut(&V) -> bool>(callback: CB, entries: Seq<(K, V)>) -> bool {
    forall|i: int| 0 <= i < entries.len() ==> call_requires(callback, (&(#[trigger] entries[i]).1,))
}

/// What a visit of `entries`, in order, has seen of the callback. A visit
/// that stopped early met an entry on which the callback gave `true`, after
/// it had given `false` on every entry before that one. A visit that ran to
/// the end was given `false` on every entry.
pub open spec fn visited<K, V, CB: FnMut(&V) -> bool>(
    callback: CB,
    entries: Seq<(K, V)>,
    stopped: bool,
) -> bool {
    if stopped {
        exists|i: int|
            0 <= i < entries.len() && call_ensures(callback, (&(#[trigger] entries[i]).1,), true)
                && forall|j: int|
                0 <= j < i ==> call_ensures(callback, (&(#[trigger] entries[j]).1,), false)
    } else {
        forall|j: int|
            0 <= j < entries.len() ==> call_ensures(callback, (&(#[trigger] entries[j]).1,), false)
    }
}

/// A visit that ran through `a` and then went on into `b` is a visit of `a + b`.
pub proof fn lemma_visited_then<K, V, CB: FnMut(&V) -> bool>(
    callback: CB,
    a: Seq<(K, V)>,
    b: Seq<(K, V)>,
    stopped: bool,
)
    requires
        visited(callback, a, false),
        visited(callback, b, stopped),
    ensures
        visited(callback, a + b, stopped),
{
    let ab = a + b;
    if stopped {
        let i = choose|i: int|
            0 <= i < b.len() && call_ensures(callback, (&(#[trigger] b[i]).1,), true) && forall|
                j: int,
            |
                0 <= j < i ==> call_ensures(callback, (&(#[trigger] b[j]).1,), false);
        assert(ab[a.len() + i] == b[i]);
        assert forall|j: int| 0 <= j < a.len() + i implies call_ensures(
            callback,
            (&(#[trigger] ab[j]).1,),
            false,
        ) by {
            if j < a.len() {
                assert(ab[j] == a[j]);
            } else {
                assert(ab[j] == b[j - a.len()]);
            }
        }
    } else {
        assert forall|j: int| 0 <= j < ab.len() implies call_ensures(
            callback,
            (&(#[trigger] ab[j]).1,),
            false,
        ) by {
            if j < a.len() {
                assert(ab[j] == a[j]);
            } else {
                assert(ab[j] == b[j - a.len()]);
            }
        }
    }
}

impl<V> ArtNodeInternal<V> {
    /// The entries below the children whose edge bytes are `from` or more,
    /// child after child in ascending order of the edge bytes.
    pub closed spec fn entries_from(self, from: int) -> Seq<(Seq<u8>, V)>
        decreases self, 256 - from,
    {
        if from < 0 || from >= 256 {
            Seq::empty()
        } else {
            let first = if self.has(from as u8) {
                self.child(from as u8).entries()
            } else {
                Seq::empty()
            };
            first + self.entries_from(from + 1)
        }
    }

    /// Edge bytes without a child add no entries.
    pub(crate) proof fn lemma_entries_skip(self, from: int, to: int)
        requires
            0 <= from <= to <= 256,
            forall|o: u8| from <= o < to ==> !self.has(o),
        ensures
            self.entries_from(from) == self.entries_from(to),
        decreases to - from,
    {
        if from < to {
            assert(!self.has(from as u8));
            self.lemma_entries_skip(from + 1, to);
            assert(Seq::<(Seq<u8>, V)>::empty() + self.entries_from(from + 1)
                =~= self.entries_from(from + 1));
        }
    }

    /// The entries from an edge byte that has a child begin with that child's.
    pub(crate) proof fn lemma_entries_step(self, b: u8)
        requires
            self.has(b),
        ensures
            self.entries_from(b as int) == self.child(b).entries() + self.entries_from(b + 1),
    {
    }

    /// The entries from `from` on are those past the edge byte `256`: none.
    pub(crate) proof fn lemma_entries_end(self)
        ensures
            self.entries_from(256) == Seq::<(Seq<u8>, V)>::empty(),
    {
    }

    /// The entries from an edge byte on are in ascending order of their
    /// keys, and are the pairs of the node whose keys take an edge byte that
    /// is not below it.
    pub(crate) proof fn lemma_entries_from(self, pre: Seq<u8>, from: int)
        requires
            self.wf(pre),
            0 <= from <= 256,
        ensures
            ascending(self.entries_from(from)),
            forall|i: int|
                0 <= i < self.entries_from(from).len() ==> {
                    let e = #[trigger] self.entries_from(from)[i];
                    &&& self@.contains_key(e.0)
                    &&& self@[e.0] == e.1
                    &&& e.0[pre.len() + self.header.partial_len] >= from
                },
            forall|k: Seq<u8>|
                self@.contains_key(k) && k[pre.len() + self.header.partial_len] >= from
                    ==> exists|i: int|
                    0 <= i < self.entries_from(from).len() && (#[trigger] self.entries_from(
                        from,
                    )[i]).0 == k,
        decreases self, 256 - from,
    {
        let m = pre.len() + self.header.partial_len;
        let p = self.path(pre.len() as int);
        lemma_keys_of(self, pre);
        if from < 256 {
            let b = from as u8;
            let rest = self.entries_from(from + 1);
            self.lemma_entries_from(pre, from + 1);
            let first = if self.has(b) {
                self.child(b).entries()
            } else {
                Seq::empty()
            };
            let all = self.entries_from(from);
            assert(all == first + rest);
            if self.has(b) {
                lemma_entries(self.child(b), p.push(b));
            }
            assert forall|i: int| 0 <= i < all.len() implies {
                let e = #[trigger] all[i];
                &&& self@.contains_key(e.0)
                &&& self@[e.0] == e.1
                &&& e.0[m] >= from
            } by {
                if i < first.len() {
                    assert(all[i] == first[i]);
                    assert(self.child(b)@.contains_key(first[i].0));
                } else {
                    assert(all[i] == rest[i - first.len()]);
                }
            }
            assert forall|i: int, j: int| 0 <= i < j < all.len() implies lex_lt(
                (#[trigger] all[i]).0,
                (#[trigger] all[j]).0,
            ) by {
                if j < first.len() {
                    assert(all[i] == first[i]);
                    assert(all[j] == first[j]);
                } else if i >= first.len() {
                    assert(all[i] == rest[i - first.len()]);
                    assert(all[j] == rest[j - first.len()]);
                } else {
                    let ki = first[i].0;
                    let kj = rest[j - first.len()].0;
                    assert(all[i] == first[i]);
                    assert(all[j] == rest[j - first.len()]);
                    assert(self.child(b)@.contains_key(ki));
                    assert(self@.contains_key(ki));
                    assert(self@.contains_key(kj));
                    assert forall|x: int| 0 <= x < m implies ki[x] == kj[x] by {
                        assert(ki[x] == p[x]);
                        assert(kj[x] == p[x]);
                    }
                    lemma_lex_lt_by_byte(ki, kj, m);
                }
            }
            assert forall|k: Seq<u8>| self@.contains_key(k) && k[m] >= from implies exists|i: int|
                0 <= i < all.len() && (#[trigger] all[i]).0 == k by {
                if k[m] == b {
                    assert(self.child(b)@.contains_key(k));
                    let i = choose|i: int| 0 <= i < first.len() && (#[trigger] first[i]).0 == k;
                    assert(all[i] == first[i]);
                } else {
                    let i = choose|i: int| 0 <= i < rest.len() && (#[trigger] rest[i]).0 == k;
                    assert(all[first.len() + i] == rest[i]);
                }
            }
        }
    }

    /// Visits the values below this node in ascending order of their keys,
    /// until the callback gives `true` on one. Says whether it did.
    pub(crate) fn recursive_iter<CB: FnMut(&V) -> bool>(
        &self,
        callback: &mut CB,
        Ghost(pre): Ghost<Seq<u8>>,
    ) -> (r: bool)
        requires
            self.wf(pre),
            accepts(*old(callback), self.entries_from(0)),
        ensures
            *final(callback) == *old(callback),
            visited(*old(callback), self.entries_from(0), r),
        decreases self,
    {
        let ghost all = self.entries_from(0);
        let ghost seen: Seq<(Seq<u8>, V)> = Seq::empty();
        let mut from: usize = 0;
        proof {
            lemma_keys_of(*self, pre);
        }
        assert(seen + self.entries_from(0) =~= all);
        while from < 256
            invariant
                from <= 256,
                self.layout(),
                forall|b: u8| self.has(b) ==> self.child(b).wf(self.path(pre.len() as int).push(b)),
                *callback == *old(callback),
                all == self.entries_from(0),
                accepts(*callback, all),
                seen + self.entries_from(from as int) == all,
                visited(*callback, seen, false),
            decreases 256 - from,
        {
            match self.next_child(from) {
                None => {
                    proof {
                        self.lemma_entries_skip(from as int, 256);
                        self.lemma_entries_end();
                        lemma_visited_then(
                            *callback,
                            seen,
                            Seq::<(Seq<u8>, V)>::empty(),
                            false,
                        );
                    }
                    return false;
                },
                Some((b, child)) => {
                    let ghost below = child.entries();
                    let ghost rest = self.entries_from(b + 1);
                    proof {
                        self.lemma_entries_skip(from as int, b as int);
                        self.lemma_entries_step(b);
                        assert(all =~= (seen + below) + rest);
                        assert forall|i: int| 0 <= i < below.len() implies call_requires(
                            *callback,
                            (&(#[trigger] below[i]).1,),
                        ) by {
                            assert(all[seen.len() + i] == below[i]);
                        }
                    }
                    let stop: bool = child.recursive_iter(
                        callback,
                        Ghost(self.path(pre.len() as int).push(b)),
                    );
                    proof {
                        lemma_visited_then(*callback, seen, below, stop);
                    }
                    if stop {
                        proof {
                            let at = choose|i: int|
                                0 <= i < (seen + below).len() && call_ensures(
                                    *callback,
                                    (&(#[trigger] (seen + below)[i]).1,),
                                    true,
                                ) && forall|j: int|
                                    0 <= j < i ==> call_ensures(
                                        *callback,
                                        (&(#[trigger] (seen + below)[j]).1,),
                                        false,
                                    );
                            assert(all[at] == (seen + below)[at]);
                            assert forall|j: int| 0 <= j < at implies call_ensures(
                                *callback,
                                (&(#[trigger] all[j]).1,),
                                false,
                            ) by {
                                assert(all[j] == (seen + below)[j]);
                            }
                        }
                        return true;
                    }
                    proof {
                        seen = seen + below;
                    }
                    from = b as usize + 1;
                },
            }
        }
        proof {
            self.lemma_entries_end();
            assert(seen =~= all);
        }
        false
    }
}

impl<V> Node<V> {
    /// The entries of this subtree in ascending order of their keys.
    pub open(crate) spec fn entries(self) -> Seq<(Seq<u8>, V)>
        decreases self, 0int,
    {
        match self {
            Node::Empty => Seq::empty(),
            Node::Leaf(l) => seq![(l.key@, l.value)],
            Node::Internal(n) => n.entries_from(0),
        }
    }

    /// Visits the values of this subtree in ascending order of their keys,
    /// until the callback gives `true` on one. Says whether it did.
    pub(crate) fn recursive_iter<CB: FnMut(&V) -> bool>(
        &self,
        callback: &mut CB,
        Ghost(pre): Ghost<Seq<u8>>,
    ) -> (r: bool)
        requires
            self is Empty || self.wf(pre),
            accepts(*old(callback), self.entries()),
        ensures
            *final(callback) == *old(callback),
            visited(*old(callback), self.entries(), r),
        decreases self,
    {
        match self {
            Node::Empty => false,
            Node::Leaf(leaf) => {
                assert(self.entries()[0] == (leaf.key@, leaf.value));
                let stop: bool = callback(&leaf.value);
                stop
            },
            Node::Internal(internal) => internal.recursive_iter(callback, Ghost(pre)),
        }
    }
}

/// The entries of a well-formed subtree are its pairs, each once, in
/// ascending order of their keys.
pub proof fn lemma_entries<V>(node: Node<V>, pre: Seq<u8>)
    requires
        node is Empty || node.wf(pre),
    ensures
        ascending(node.entries()),
        lists(node.entries(), node@),
    decreases node, 0int,
{
    match node {
        Node::Empty => {},
        Node::Leaf(l) => {
            assert(node.entries()[0] == (l.key@, l.value));
        },
        Node::Internal(n) => {
            n.lemma_entries_from(pre, 0);
            lemma_keys_of(*n, pre);
        },
    }
}

} // verus!
