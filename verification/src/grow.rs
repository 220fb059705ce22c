//! Adding a child to an interior node, and the step to the next fan-out
//! class when the node is full.

use crate::count::{
    count_below, lemma_count_all, lemma_count_bound, lemma_count_full, lemma_count_none,
    lemma_count_same, lemma_count_set, lemma_count_tail,
};
use crate::node::{
    index_in, live_pred, nonzero_pred, sorted_below, ArtNodeInternal, ArtNodeInternalInner,
    InternalNodeHeader, Node,
};
use crate::slots::{
    empty_slots, inserted_at, keys_insert, lemma_index_in_same, lemma_inserted_at, pad_slots,
    take_slot, upper_bound,
};
use vstd::prelude::*;

verus! {

/// The class that follows the one with `cap` slots.
pub open spec fn next_capacity(cap: int) -> int {
    if cap == 4 {
        16
    } else if cap == 16 {
        48
    } else {
        256
    }
}

impl<V> ArtNodeInternal<V> {
    /// Every edge byte leads to the same child in both nodes, or to none in both.
    pub(crate) open spec fn same_children(self, other: Self) -> bool {
        forall|b: u8|
            #![trigger self.has(b)]
            #![trigger self.child(b)]
            self.has(b) == other.has(b) && (other.has(b) ==> self.child(b) == other.child(b))
    }

    /// Every edge byte but `c` leads to the same child in both nodes, or to
    /// none in both.
    pub(crate) open spec fn same_children_but(self, other: Self, c: u8) -> bool {
        forall|b: u8|
            #![trigger self.has(b)]
            #![trigger self.child(b)]
            b != c ==> self.has(b) == other.has(b) && (other.has(b) ==> self.child(b)
                == other.child(b))
    }

    /// This node is `old` with `child` put under edge byte `c`, where the
    /// class of `old` puts it: at its place in the order of the edge bytes
    /// in the classes of 4 and 16; in the first empty slot in the class of
    /// 48; in slot `c` in the class of 256.
    pub(crate) open spec fn placed(self, old: Self, c: u8, child: Node<V>) -> bool {
        let n = old.count();
        let at = self.slot(c);
        &&& self.capacity() == old.capacity()
        &&& if old.capacity() == 4 || old.capacity() == 16 {
            &&& inserted_at(old.index_keys(), self.index_keys(), n, at, c)
            &&& self.kids() == old.kids().insert(at, child).subrange(0, old.capacity())
        } else if old.capacity() == 48 {
            &&& 0 <= at < 48
            &&& old.kids()[at] is Empty
            &&& forall|j: int| 0 <= j < at ==> !(#[trigger] old.kids()[j] is Empty)
            &&& self.index_keys() == old.index_keys().update(c as int, (at + 1) as u8)
            &&& self.kids() == old.kids().update(at, child)
        } else {
            self.kids() == old.kids().update(c as int, child)
        }
    }

    /// This node is `old` moved to the next class: the slots that `old` has
    /// come first, in their order, and empty slots follow; the class of 48
    /// indexes each edge byte by its slot; the class of 256 holds each child
    /// in the slot of its edge byte.
    pub(crate) open spec fn grown(self, old: Self) -> bool {
        &&& self.capacity() == next_capacity(old.capacity())
        &&& if old.capacity() == 4 {
            &&& forall|i: int| 0 <= i < 4 ==> self.index_keys()[i] == old.index_keys()[i]
            &&& forall|i: int| 4 <= i < 16 ==> self.index_keys()[i] == 0
            &&& forall|i: int| 0 <= i < 4 ==> self.kids()[i] == old.kids()[i]
            &&& forall|i: int| 4 <= i < 16 ==> self.kids()[i] is Empty
        } else if old.capacity() == 16 {
            &&& forall|b: u8| #[trigger] self.index_keys()[b as int] == old.slot(b) + 1
            &&& forall|i: int| 0 <= i < 16 ==> self.kids()[i] == old.kids()[i]
            &&& forall|i: int| 16 <= i < 48 ==> self.kids()[i] is Empty
        } else {
            forall|b: u8| #[trigger]
                self.kids()[b as int] == if old.has(b) {
                    old.child(b)
                } else {
                    Node::Empty
                }
        }
    }

    /// A node of the smallest class with no child yet.
    pub(crate) fn new_node4(partial_len: usize, partial: [u8; 10]) -> (r: Self)
        ensures
            r.layout(),
            r.count() == 0,
            r.capacity() == 4,
            r.header.partial_len == partial_len,
            r.header.partial == partial,
            forall|b: u8| !r.has(b),
            r.index_keys() == seq![0u8, 0u8, 0u8, 0u8],
            r.kids() == seq![Node::<V>::Empty, Node::<V>::Empty, Node::<V>::Empty, Node::<V>::Empty],
    {
        let r = ArtNodeInternal {
            header: InternalNodeHeader { partial_len, num_children: 0, partial },
            inner: ArtNodeInternalInner::Node4 { keys: [0u8; 4], children: empty_slots(4) },
        };
        assert(r.index_keys() =~= seq![0u8, 0u8, 0u8, 0u8]);
        assert(r.kids() =~= seq![
            Node::<V>::Empty,
            Node::<V>::Empty,
            Node::<V>::Empty,
            Node::<V>::Empty,
        ]);
        r
    }

    /// Whether every slot of the node's class is taken.
    pub(crate) fn is_full(&self) -> (r: bool)
        requires
            self.layout(),
        ensures
            r == (self.count() == self.capacity()),
    {
        let n: u16 = self.header.num_children;
        match &self.inner {
            ArtNodeInternalInner::Node4 { .. } => n == 4,
            ArtNodeInternalInner::Node16 { .. } => n == 16,
            ArtNodeInternalInner::Node48 { .. } => n == 48,
            ArtNodeInternalInner::Node256 { .. } => n == 256,
        }
    }

    /// Moves a full node to the next class. Its children stay under their
    /// edge bytes.
    pub(crate) fn grow(&mut self)
        requires
            old(self).layout(),
            old(self).count() == old(self).capacity(),
            old(self).capacity() < 256,
        ensures
            final(self).layout(),
            final(self).header == old(self).header,
            final(self).same_children(*old(self)),
            final(self).capacity() == next_capacity(old(self).capacity()),
            final(self).grown(*old(self)),
    {
        let ghost n0 = *self;
        let mut inner: ArtNodeInternalInner<V> = ArtNodeInternalInner::Node256 {
            children: Vec::new(),
        };
        std::mem::swap(&mut self.inner, &mut inner);
        match inner {
            ArtNodeInternalInner::Node4 { keys, children } => {
                let mut kids = children;
                let mut wide: [u8; 16] = [0u8; 16];
                let mut i: usize = 0;
                while i < 4
                    invariant
                        i <= 4,
                        forall|j: int| 0 <= j < i ==> wide@[j] == keys@[j],
                        forall|j: int| i <= j < 16 ==> wide@[j] == 0,
                    decreases 4 - i,
                {
                    wide[i] = keys[i];
                    i += 1;
                }
                pad_slots(&mut kids, 16);
                self.inner = ArtNodeInternalInner::Node16 { keys: wide, children: kids };
                proof {
                    lemma_index_in_same(keys@, wide@, 4);
                    assert(self.same_children(n0));
                }
            },
            ArtNodeInternalInner::Node16 { keys, children } => {
                let mut kids = children;
                let mut index: [u8; 256] = [0u8; 256];
                let mut i: usize = 0;
                proof {
                    lemma_count_none(nonzero_pred(index@), 256);
                }
                while i < 16
                    invariant
                        i <= 16,
                        sorted_below(keys@, 16),
                        forall|b: int|
                            0 <= b < 256 && #[trigger] index@[b] != 0 ==> index@[b] <= i
                                && keys@[index@[b] - 1] == b,
                        forall|j: int| 0 <= j < i ==> #[trigger] index@[keys@[j] as int] == j + 1,
                        count_below(nonzero_pred(index@), 256) == i,
                    decreases 16 - i,
                {
                    let ghost before = index@;
                    let b: usize = keys[i] as usize;
                    proof {
                        if before[b as int] != 0 {
                            let j = before[b as int] - 1;
                            assert(keys@[j] == b);
                            assert(keys@[j] < keys@[i as int]);
                        }
                    }
                    index[b] = (i + 1) as u8;
                    proof {
                        lemma_count_set(
                            nonzero_pred(before),
                            nonzero_pred(index@),
                            256,
                            b as int,
                        );
                        assert forall|j: int| 0 <= j < i + 1 implies #[trigger] index@[keys@[j] as int]
                            == j + 1 by {
                            if j < i {
                                assert(keys@[j] < keys@[i as int]);
                                assert(before[keys@[j] as int] == j + 1);
                            }
                        }
                    }
                    i += 1;
                }
                let ghost k0 = kids@;
                pad_slots(&mut kids, 48);
                self.inner = ArtNodeInternalInner::Node48 { keys: index, children: kids };
                proof {
                    lemma_count_all(live_pred(kids@), 16);
                    lemma_count_tail(live_pred(kids@), 16, 48);
                    assert forall|b1: int, b2: int|
                        0 <= b1 < 256 && 0 <= b2 < 256 && b1 != b2 && index@[b1]
                            != 0 implies #[trigger] index@[b1] != #[trigger] index@[b2] by {
                        if index@[b1] == index@[b2] {
                            assert(keys@[index@[b1] - 1] == b1);
                            assert(keys@[index@[b2] - 1] == b2);
                        }
                    }
                    assert forall|b: u8| #[trigger] index@[b as int] == n0.slot(b) + 1 by {
                        let i0 = index_in(keys@, 16, b);
                        if i0 >= 0 {
                            assert(index@[keys@[i0] as int] == i0 + 1);
                        } else {
                            if index@[b as int] != 0 {
                                assert(keys@[index@[b as int] - 1] == b);
                            }
                        }
                    }
                    assert forall|b: u8|
                        #![trigger self.has(b)]
                        #![trigger self.child(b)]
                        self.has(b) == n0.has(b) && (n0.has(b) ==> self.child(b) == n0.child(
                            b,
                        )) by {
                        assert(index@[b as int] == n0.slot(b) + 1);
                    }
                }
            },
            ArtNodeInternalInner::Node48 { keys, children } => {
                let mut kids = children;
                let ghost k0 = kids@;
                let mut all: Vec<Node<V>> = Vec::with_capacity(256);
                let mut b: usize = 0;
                while b < 256
                    invariant
                        b <= 256,
                        all@.len() == b,
                        kids@.len() == 48,
                        k0.len() == 48,
                        n0.layout(),
                        n0.inner == (ArtNodeInternalInner::Node48 { keys, children }),
                        children@ == k0,
                        forall|o: int|
                            0 <= o < b ==> #[trigger] all@[o] == if keys@[o] != 0 {
                                k0[keys@[o] - 1]
                            } else {
                                Node::Empty
                            },
                        forall|o: int|
                            b <= o < 256 && #[trigger] keys@[o] != 0 ==> kids@[keys@[o] - 1]
                                == k0[keys@[o] - 1],
                    decreases 256 - b,
                {
                    let idx: usize = keys[b] as usize;
                    if idx != 0 {
                        let x = take_slot(&mut kids[idx - 1]);
                        all.push(x);
                        proof {
                            assert forall|o: int|
                                b + 1 <= o < 256 && #[trigger] keys@[o] != 0 implies kids@[keys@[o]
                                - 1] == k0[keys@[o] - 1] by {
                                assert(keys@[o] != keys@[b as int]);
                            }
                        }
                    } else {
                        all.push(Node::Empty);
                    }
                    b += 1;
                }
                self.inner = ArtNodeInternalInner::Node256 { children: all };
                proof {
                    assert forall|o: int| 0 <= o < 256 implies #[trigger] nonzero_pred(keys@)(o)
                        == live_pred(all@)(o) by {
                        assert(all@[o] == if keys@[o] != 0 {
                            k0[keys@[o] - 1]
                        } else {
                            Node::Empty
                        });
                    }
                    lemma_count_same(nonzero_pred(keys@), live_pred(all@), 256);
                    assert forall|b: u8|
                        #![trigger self.has(b)]
                        #![trigger self.child(b)]
                        self.has(b) == n0.has(b) && (n0.has(b) ==> self.child(b) == n0.child(
                            b,
                        )) by {
                        assert(all@[b as int] == if keys@[b as int] != 0 {
                            k0[keys@[b as int] - 1]
                        } else {
                            Node::Empty
                        });
                    }
                }
            },
            ArtNodeInternalInner::Node256 { children } => {
                self.inner = ArtNodeInternalInner::Node256 { children };
            },
        }
    }

    /// Puts `child` under edge byte `c` into a node that has room for it.
    pub(crate) fn place_child(&mut self, c: u8, child: Node<V>)
        requires
            old(self).layout(),
            !old(self).has(c),
            !(child is Empty),
            old(self).count() < old(self).capacity(),
        ensures
            final(self).layout(),
            final(self).header.partial_len == old(self).header.partial_len,
            final(self).header.partial == old(self).header.partial,
            final(self).count() == old(self).count() + 1,
            final(self).capacity() == old(self).capacity(),
            final(self).has(c),
            final(self).child(c) == child,
            final(self).same_children_but(*old(self), c),
            final(self).placed(*old(self), c, child),
    {
        let ghost n0 = *self;
        let n: usize = self.header.num_children as usize;
        match &mut self.inner {
            ArtNodeInternalInner::Node4 { keys, children } => {
                let ghost k0 = keys@;
                let ghost c0 = children@;
                let idx: usize = upper_bound(keys.as_slice(), n, c);
                proof {
                    assert forall|i: int| 0 <= i < idx implies k0[i] < c by {
                        if k0[i] == c {
                            assert(index_in(k0, n as int, c) >= 0);
                        }
                    }
                }
                keys_insert(keys, n, idx, c);
                children.pop();
                children.insert(idx, child);
                proof {
                    lemma_inserted_at(k0, keys@, n as int, idx as int, c);
                    assert(children@ =~= c0.insert(idx as int, child).subrange(0, 4));
                    assert forall|i: int| 0 <= i < n + 1 implies !(#[trigger] children@[i] is Empty) by {
                        if i < idx {
                            assert(children@[i] == c0[i]);
                        } else if i > idx {
                            assert(children@[i] == c0[i - 1]);
                        }
                    }
                }
                self.header.num_children = self.header.num_children + 1;
                proof {
                    assert forall|b: u8|
                        #![trigger self.has(b)]
                        #![trigger self.child(b)]
                        b != c implies self.has(b) == n0.has(b) && (n0.has(b) ==> self.child(b)
                        == n0.child(b)) by {
                        let i0 = index_in(k0, n as int, b);
                        if i0 >= 0 {
                            if i0 < idx {
                                assert(self.kids()[i0] == c0[i0]);
                            } else {
                                assert(self.kids()[i0 + 1] == c0[i0]);
                            }
                        }
                    }
                }
            },
            ArtNodeInternalInner::Node16 { keys, children } => {
                let ghost k0 = keys@;
                let ghost c0 = children@;
                let idx: usize = upper_bound(keys.as_slice(), n, c);
                proof {
                    assert forall|i: int| 0 <= i < idx implies k0[i] < c by {
                        if k0[i] == c {
                            assert(index_in(k0, n as int, c) >= 0);
                        }
                    }
                }
                keys_insert(keys, n, idx, c);
                children.pop();
                children.insert(idx, child);
                proof {
                    lemma_inserted_at(k0, keys@, n as int, idx as int, c);
                    assert(children@ =~= c0.insert(idx as int, child).subrange(0, 16));
                    assert forall|i: int| 0 <= i < n + 1 implies !(#[trigger] children@[i] is Empty) by {
                        if i < idx {
                            assert(children@[i] == c0[i]);
                        } else if i > idx {
                            assert(children@[i] == c0[i - 1]);
                        }
                    }
                }
                self.header.num_children = self.header.num_children + 1;
                proof {
                    assert forall|b: u8|
                        #![trigger self.has(b)]
                        #![trigger self.child(b)]
                        b != c implies self.has(b) == n0.has(b) && (n0.has(b) ==> self.child(b)
                        == n0.child(b)) by {
                        let i0 = index_in(k0, n as int, b);
                        if i0 >= 0 {
                            if i0 < idx {
                                assert(self.kids()[i0] == c0[i0]);
                            } else {
                                assert(self.kids()[i0 + 1] == c0[i0]);
                            }
                        }
                    }
                }
            },
            ArtNodeInternalInner::Node48 { keys, children } => {
                let ghost k0 = keys@;
                let ghost c0 = children@;
                let mut p: usize = 0;
                while p < 48 && !children[p].is_empty()
                    invariant
                        p <= 48,
                        children@ == c0,
                        c0.len() == 48,
                        forall|j: int| 0 <= j < p ==> !(#[trigger] c0[j] is Empty),
                    decreases 48 - p,
                {
                    p += 1;
                }
                proof {
                    if p == 48 {
                        assert forall|j: int| 0 <= j < 48 implies #[trigger] live_pred(c0)(j) by {
                            assert(!(c0[j] is Empty));
                        }
                        lemma_count_all(live_pred(c0), 48);
                    }
                }
                children[p] = child;
                keys[c as usize] = (p + 1) as u8;
                proof {
                    assert(k0[c as int] == 0);
                    lemma_count_set(live_pred(c0), live_pred(children@), 48, p as int);
                    lemma_count_set(nonzero_pred(k0), nonzero_pred(keys@), 256, c as int);
                    assert forall|b: int|
                        0 <= b < 256 && b != c && k0[b] != 0 implies k0[b] - 1 != p by {
                        assert(!(c0[k0[b] - 1] is Empty));
                    }
                }
                self.header.num_children = self.header.num_children + 1;
            },
            ArtNodeInternalInner::Node256 { children } => {
                let ghost c0 = children@;
                children[c as usize] = child;
                proof {
                    lemma_count_set(live_pred(c0), live_pred(children@), 256, c as int);
                }
                self.header.num_children = self.header.num_children + 1;
            },
        }
    }

    /// Puts `child` under edge byte `c`. A node whose slots are all taken
    /// first moves to the next class.
    pub(crate) fn add_child(&mut self, c: u8, child: Node<V>)
        requires
            old(self).layout(),
            !old(self).has(c),
            !(child is Empty),
        ensures
            final(self).layout(),
            final(self).header.partial_len == old(self).header.partial_len,
            final(self).header.partial == old(self).header.partial,
            final(self).count() == old(self).count() + 1,
            final(self).capacity() == if old(self).count() == old(self).capacity() {
                next_capacity(old(self).capacity())
            } else {
                old(self).capacity()
            },
            final(self).has(c),
            final(self).child(c) == child,
            final(self).same_children_but(*old(self), c),
            old(self).count() < old(self).capacity() ==> final(self).placed(*old(self), c, child),
            old(self).count() == old(self).capacity() ==> exists|wider: Self|
                #[trigger] wider.grown(*old(self)) && final(self).placed(wider, c, child),
    {
        proof {
            self.lemma_room(c);
        }
        if self.is_full() {
            self.grow();
        }
        let ghost wider = *self;
        self.place_child(c, child);
        proof {
            if old(self).count() == old(self).capacity() {
                assert(wider.grown(*old(self)) && self.placed(wider, c, child));
            }
        }
    }

    /// A node that lacks a child under some edge byte has fewer than 256 children,
    /// and never more than its class has slots.
    pub(crate) proof fn lemma_room(self, c: u8)
        requires
            self.layout(),
            !self.has(c),
        ensures
            self.count() <= self.capacity(),
            self.count() < 256,
    {
        match self.inner {
            ArtNodeInternalInner::Node256 { children } => {
                lemma_count_bound(live_pred(children@), 256, 256);
                if self.count() == 256 {
                    lemma_count_full(live_pred(children@), 256);
                    assert(live_pred(children@)(c as int));
                }
            },
            _ => {},
        }
    }
}

} // verus!
