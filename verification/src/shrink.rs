//! Taking a child out of an interior node, and the step down to the smaller
//! fan-out class when few children are left.

use crate::count::{
    count_below, lemma_count_all, lemma_count_bound, lemma_count_clear, lemma_count_same,
    lemma_count_some, lemma_count_tail,
};
use crate::node::{
    index_in, lemma_index_in, live_pred, nonzero_pred, sorted_below, ArtNodeInternal,
    ArtNodeInternalInner, Node,
};
use crate::slots::{
    keys_remove, lemma_index_in_same, lemma_removed_at, pad_slots, removed_at, take_slot,
};
use vstd::prelude::*;

verus! {

/// The class that a node of `cap` slots gives way to when it is left with
/// `count` children, or `cap` itself where it stays.
pub open spec fn capacity_after_removal(cap: int, count: int) -> int {
    if cap == 256 && count == 37 {
        48
    } else if cap == 48 && count == 12 {
        16
    } else if cap == 16 && count == 3 {
        4
    } else {
        cap
    }
}

impl<V> ArtNodeInternal<V> {
    /// This node is `old` without its child under edge byte `c`, as the
    /// class of `old` takes it out: the classes of 4 and 16 close the gap,
    /// and a 0 and an empty slot come in at the end; the class of 48 clears
    /// the index entry and the slot; the class of 256 clears the slot.
    pub(crate) open spec fn unplaced(self, old: Self, c: u8) -> bool {
        let n = old.count();
        let at = old.slot(c);
        &&& self.capacity() == old.capacity()
        &&& if old.capacity() == 4 || old.capacity() == 16 {
            &&& removed_at(old.index_keys(), self.index_keys(), n, at)
            &&& self.kids() == old.kids().remove(at).push(Node::Empty)
        } else if old.capacity() == 48 {
            &&& self.index_keys() == old.index_keys().update(c as int, 0)
            &&& self.kids() == old.kids().update(at, Node::Empty)
        } else {
            self.kids() == old.kids().update(c as int, Node::Empty)
        }
    }

    /// This node is `old` moved to the smaller class: the children come in
    /// ascending order of their edge bytes into the first slots, and empty
    /// slots follow; the class of 48 indexes each edge byte by its slot.
    pub(crate) open spec fn shrunk(self, old: Self) -> bool {
        let n = old.count();
        &&& self.capacity() == capacity_after_removal(old.capacity(), n)
        &&& self.capacity() < old.capacity()
        &&& if old.capacity() == 16 {
            &&& forall|i: int| 0 <= i < 3 ==> self.index_keys()[i] == old.index_keys()[i]
            &&& self.index_keys()[3] == 0
            &&& self.kids() == old.kids().subrange(0, 4)
        } else if old.capacity() == 48 {
            &&& sorted_below(self.index_keys(), n)
            &&& forall|i: int| n <= i < 16 ==> self.index_keys()[i] == 0
            &&& forall|i: int| n <= i < 16 ==> self.kids()[i] is Empty
        } else {
            &&& forall|b: u8| #[trigger]
                self.index_keys()[b as int] == if old.has(b) {
                    count_below(live_pred(old.kids()), b as int) + 1
                } else {
                    0
                }
            &&& forall|i: int| n <= i < 48 ==> self.kids()[i] is Empty
        }
    }

    /// Takes the node out of slot `pos` and leaves the slot empty.
    pub(crate) fn lift_child(&mut self, pos: usize) -> (r: Node<V>)
        requires
            pos < old(self).kids().len(),
        ensures
            r == old(self).kids()[pos as int],
            final(self).header == old(self).header,
            final(self).same_index(*old(self)),
            final(self).kids() == old(self).kids().update(pos as int, Node::Empty),
    {
        let slot = self.child_at_mut(pos);
        take_slot(slot)
    }

    /// Puts `child` into slot `pos`.
    pub(crate) fn set_child(&mut self, pos: usize, child: Node<V>)
        requires
            pos < old(self).kids().len(),
        ensures
            final(self).header == old(self).header,
            final(self).same_index(*old(self)),
            final(self).kids() == old(self).kids().update(pos as int, child),
    {
        let slot = self.child_at_mut(pos);
        *slot = child;
    }

    /// A node with a child has one under some edge byte.
    pub(crate) proof fn lemma_has_some(self)
        requires
            self.layout(),
            self.count() >= 1,
        ensures
            exists|b: u8| self.has(b),
    {
        match self.inner {
            ArtNodeInternalInner::Node4 { keys, .. } => {
                lemma_index_in(keys@, self.count(), 0);
                assert(self.has(keys@[0]));
            },
            ArtNodeInternalInner::Node16 { keys, .. } => {
                lemma_index_in(keys@, self.count(), 0);
                assert(self.has(keys@[0]));
            },
            ArtNodeInternalInner::Node48 { keys, .. } => {
                lemma_count_some(nonzero_pred(keys@), 256);
                let i = choose|i: int| 0 <= i < 256 && #[trigger] nonzero_pred(keys@)(i);
                assert(self.has(i as u8));
            },
            ArtNodeInternalInner::Node256 { children } => {
                lemma_count_some(live_pred(children@), 256);
                let i = choose|i: int| 0 <= i < 256 && #[trigger] live_pred(children@)(i);
                assert(self.has(i as u8));
            },
        }
    }

    /// Closes the gap that the child under edge byte `c` left when it was
    /// lifted out of slot `pos` of the node `n0`.
    pub(crate) fn remove_child(&mut self, c: u8, pos: usize, Ghost(n0): Ghost<Self>)
        requires
            n0.layout(),
            n0.has(c),
            pos == n0.slot(c),
            old(self).header == n0.header,
            old(self).same_index(n0),
            old(self).kids() == n0.kids().update(pos as int, Node::Empty),
        ensures
            final(self).layout(),
            final(self).header.partial_len == n0.header.partial_len,
            final(self).header.partial == n0.header.partial,
            final(self).count() == n0.count() - 1,
            final(self).capacity() == n0.capacity(),
            !final(self).has(c),
            final(self).same_children_but(n0, c),
            final(self).unplaced(n0, c),
    {
        let n: usize = self.header.num_children as usize;
        let ghost c0 = n0.kids();
        match &mut self.inner {
            ArtNodeInternalInner::Node4 { keys, children } => {
                let ghost k0 = keys@;
                let ghost mid = children@;
                proof {
                    lemma_index_in(k0, n as int, pos as int);
                }
                keys_remove(keys, n, pos);
                children.remove(pos);
                children.push(Node::Empty);
                proof {
                    lemma_removed_at(k0, keys@, n as int, pos as int);
                    assert(children@ =~= mid.remove(pos as int).push(Node::Empty));
                    assert(children@ =~= c0.remove(pos as int).push(Node::Empty));
                    assert forall|i: int| 0 <= i < n - 1 implies !(#[trigger] children@[i] is Empty) by {
                        if i < pos {
                            assert(children@[i] == c0[i]);
                        } else {
                            assert(children@[i] == c0[i + 1]);
                        }
                    }
                }
                self.header.num_children = self.header.num_children - 1;
                proof {
                    assert forall|b: u8|
                        #![trigger self.has(b)]
                        #![trigger self.child(b)]
                        b != c implies self.has(b) == n0.has(b) && (n0.has(b) ==> self.child(b)
                        == n0.child(b)) by {
                        let i0 = index_in(k0, n as int, b);
                        if i0 >= 0 {
                            assert(i0 != pos);
                            if i0 < pos {
                                assert(self.kids()[i0] == c0[i0]);
                            } else {
                                assert(self.kids()[i0 - 1] == c0[i0]);
                            }
                        }
                    }
                }
            },
            ArtNodeInternalInner::Node16 { keys, children } => {
                let ghost k0 = keys@;
                let ghost mid = children@;
                proof {
                    lemma_index_in(k0, n as int, pos as int);
                }
                keys_remove(keys, n, pos);
                children.remove(pos);
                children.push(Node::Empty);
                proof {
                    lemma_removed_at(k0, keys@, n as int, pos as int);
                    assert(children@ =~= mid.remove(pos as int).push(Node::Empty));
                    assert(children@ =~= c0.remove(pos as int).push(Node::Empty));
                    assert forall|i: int| 0 <= i < n - 1 implies !(#[trigger] children@[i] is Empty) by {
                        if i < pos {
                            assert(children@[i] == c0[i]);
                        } else {
                            assert(children@[i] == c0[i + 1]);
                        }
                    }
                }
                self.header.num_children = self.header.num_children - 1;
                proof {
                    assert forall|b: u8|
                        #![trigger self.has(b)]
                        #![trigger self.child(b)]
                        b != c implies self.has(b) == n0.has(b) && (n0.has(b) ==> self.child(b)
                        == n0.child(b)) by {
                        let i0 = index_in(k0, n as int, b);
                        if i0 >= 0 {
                            assert(i0 != pos);
                            if i0 < pos {
                                assert(self.kids()[i0] == c0[i0]);
                            } else {
                                assert(self.kids()[i0 - 1] == c0[i0]);
                            }
                        }
                    }
                }
            },
            ArtNodeInternalInner::Node48 { keys, children } => {
                let ghost k0 = keys@;
                keys[c as usize] = 0;
                proof {
                    lemma_count_clear(nonzero_pred(k0), nonzero_pred(keys@), 256, c as int);
                    lemma_count_clear(live_pred(c0), live_pred(children@), 48, pos as int);
                    assert forall|b: int|
                        0 <= b < 256 && b != c && k0[b] != 0 implies k0[b] - 1 != pos by {
                        assert(k0[b] != k0[c as int]);
                    }
                }
                self.header.num_children = self.header.num_children - 1;
            },
            ArtNodeInternalInner::Node256 { children } => {
                proof {
                    lemma_count_clear(live_pred(c0), live_pred(children@), 256, pos as int);
                }
                self.header.num_children = self.header.num_children - 1;
            },
        }
    }

    /// Moves the node to the smaller class where one removal has brought
    /// its count down to the mark of its class: 37 of 256, 12 of 48, 3 of 16.
    /// Its children stay under their edge bytes.
    pub(crate) fn shrink(&mut self)
        requires
            old(self).layout(),
        ensures
            final(self).layout(),
            final(self).header == old(self).header,
            final(self).same_children(*old(self)),
            final(self).capacity() == capacity_after_removal(
                old(self).capacity(),
                old(self).count(),
            ),
            final(self).capacity() == old(self).capacity() ==> *final(self) == *old(self),
            final(self).capacity() != old(self).capacity() ==> final(self).shrunk(*old(self)),
    {
        let ghost n0 = *self;
        let n: u16 = self.header.num_children;
        let due: bool = match &self.inner {
            ArtNodeInternalInner::Node4 { .. } => false,
            ArtNodeInternalInner::Node16 { .. } => n == 3,
            ArtNodeInternalInner::Node48 { .. } => n == 12,
            ArtNodeInternalInner::Node256 { .. } => n == 37,
        };
        if !due {
            return ;
        }
        let mut inner: ArtNodeInternalInner<V> = ArtNodeInternalInner::Node256 {
            children: Vec::new(),
        };
        std::mem::swap(&mut self.inner, &mut inner);
        match inner {
            ArtNodeInternalInner::Node4 { keys, children } => {
                self.inner = ArtNodeInternalInner::Node4 { keys, children };
            },
            ArtNodeInternalInner::Node16 { keys, children } => {
                let mut kids = children;
                let mut narrow: [u8; 4] = [0u8; 4];
                let mut i: usize = 0;
                while i < 3
                    invariant
                        i <= 3,
                        forall|j: int| 0 <= j < i ==> narrow@[j] == keys@[j],
                        forall|j: int| i <= j < 4 ==> narrow@[j] == 0,
                    decreases 3 - i,
                {
                    narrow[i] = keys[i];
                    i += 1;
                }
                kids.truncate(4);
                self.inner = ArtNodeInternalInner::Node4 { keys: narrow, children: kids };
                proof {
                    lemma_index_in_same(keys@, narrow@, 3);
                    assert(self.same_children(n0));
                }
            },
            ArtNodeInternalInner::Node48 { keys, children } => {
                let mut pool = children;
                let ghost k0 = pool@;
                let mut sorted: [u8; 16] = [0u8; 16];
                let mut kids: Vec<Node<V>> = Vec::with_capacity(16);
                let mut b: usize = 0;
                while b < 256
                    invariant
                        b <= 256,
                        n0.layout(),
                        n0.count() == 12,
                        n0.inner == (ArtNodeInternalInner::Node48 { keys, children }),
                        children@ == k0,
                        pool@.len() == 48,
                        kids@.len() == count_below(nonzero_pred(keys@), b as int),
                        kids@.len() <= 12,
                        sorted_below(sorted@, kids@.len() as int),
                        forall|j: int| kids@.len() <= j < 16 ==> sorted@[j] == 0,
                        forall|j: int|
                            0 <= j < kids@.len() ==> {
                                &&& (#[trigger] sorted@[j]) < b
                                &&& keys@[sorted@[j] as int] != 0
                                &&& kids@[j] == k0[keys@[sorted@[j] as int] - 1]
                            },
                        forall|o: int|
                            0 <= o < b && #[trigger] keys@[o] != 0 ==> index_in(
                                sorted@,
                                kids@.len() as int,
                                o as u8,
                            ) >= 0,
                        forall|o: int|
                            b <= o < 256 && #[trigger] keys@[o] != 0 ==> pool@[keys@[o] - 1]
                                == k0[keys@[o] - 1],
                    decreases 256 - b,
                {
                    let idx: usize = keys[b] as usize;
                    proof {
                        lemma_count_bound(nonzero_pred(keys@), b + 1, 256);
                    }
                    if idx != 0 {
                        let at: usize = kids.len();
                        let ghost before = sorted@;
                        sorted[at] = b as u8;
                        let x = take_slot(&mut pool[idx - 1]);
                        kids.push(x);
                        proof {
                            assert forall|i: int, j: int| 0 <= i < j < at + 1 implies sorted@[i]
                                < sorted@[j] by {
                                assert(sorted@[i] == before[i]);
                                if j < at {
                                    assert(sorted@[j] == before[j]);
                                }
                            }
                            assert forall|o: int|
                                b + 1 <= o < 256 && #[trigger] keys@[o] != 0 implies pool@[keys@[o]
                                - 1] == k0[keys@[o] - 1] by {
                                assert(keys@[o] != keys@[b as int]);
                            }
                            assert forall|o: int|
                                0 <= o < b + 1 && #[trigger] keys@[o] != 0 implies index_in(
                                sorted@,
                                at + 1,
                                o as u8,
                            ) >= 0 by {
                                if o < b {
                                    let j = index_in(before, at as int, o as u8);
                                    assert(sorted@[j] == o);
                                } else {
                                    assert(sorted@[at as int] == o);
                                }
                            }
                        }
                    }
                    b += 1;
                }
                let ghost gathered = kids@;
                assert(gathered.len() == 12);
                pad_slots(&mut kids, 16);
                self.inner = ArtNodeInternalInner::Node16 { keys: sorted, children: kids };
                proof {
                    assert forall|i: int| 0 <= i < 12 implies !(#[trigger] kids@[i] is Empty) by {
                        assert(kids@[i] == gathered[i]);
                        assert(sorted@[i] < 256);
                        assert(gathered[i] == k0[keys@[sorted@[i] as int] - 1]);
                    }
                    assert forall|b: u8|
                        #![trigger self.has(b)]
                        #![trigger self.child(b)]
                        self.has(b) == n0.has(b) && (n0.has(b) ==> self.child(b) == n0.child(
                            b,
                        )) by {
                        if keys@[b as int] != 0 {
                            let j = index_in(sorted@, 12, b);
                            assert(j >= 0);
                        } else {
                            if index_in(sorted@, 12, b) >= 0 {
                                let j = index_in(sorted@, 12, b);
                                assert(keys@[sorted@[j] as int] != 0);
                            }
                        }
                    }
                }
            },
            ArtNodeInternalInner::Node256 { children } => {
                let mut all = children;
                let ghost k0 = all@;
                let mut index: [u8; 256] = [0u8; 256];
                let mut pool: Vec<Node<V>> = Vec::with_capacity(48);
                let mut b: usize = 0;
                while b < 256
                    invariant
                        b <= 256,
                        n0.layout(),
                        n0.count() == 37,
                        n0.inner == (ArtNodeInternalInner::Node256 { children }),
                        children@ == k0,
                        all@.len() == 256,
                        pool@.len() == count_below(live_pred(k0), b as int),
                        pool@.len() <= 37,
                        forall|o: int| 0 <= o < 256 ==> #[trigger] index@[o] <= pool@.len(),
                        forall|o: int| b <= o < 256 ==> #[trigger] index@[o] == 0,
                        forall|o: int| b <= o < 256 ==> #[trigger] all@[o] == k0[o],
                        forall|o: int|
                            0 <= o < b ==> (#[trigger] index@[o] != 0) == !(k0[o] is Empty),
                        forall|o: int|
                            0 <= o < b && #[trigger] index@[o] != 0 ==> index@[o] == count_below(
                                live_pred(k0),
                                o,
                            ) + 1,
                        forall|o: int|
                            0 <= o < b && #[trigger] index@[o] != 0 ==> pool@[index@[o] - 1]
                                == k0[o],
                        forall|o1: int, o2: int|
                            0 <= o1 < 256 && 0 <= o2 < 256 && o1 != o2 && index@[o1]
                                != 0 ==> #[trigger] index@[o1] != #[trigger] index@[o2],
                        forall|j: int| 0 <= j < pool@.len() ==> !(#[trigger] pool@[j] is Empty),
                    decreases 256 - b,
                {
                    proof {
                        lemma_count_bound(live_pred(k0), b + 1, 256);
                    }
                    if !all[b].is_empty() {
                        let x = take_slot(&mut all[b]);
                        pool.push(x);
                        index[b] = pool.len() as u8;
                    }
                    b += 1;
                }
                pad_slots(&mut pool, 48);
                self.inner = ArtNodeInternalInner::Node48 { keys: index, children: pool };
                proof {
                    assert forall|o: int| 0 <= o < 256 implies #[trigger] live_pred(k0)(o)
                        == nonzero_pred(index@)(o) by {
                        assert((index@[o] != 0) == !(k0[o] is Empty));
                    }
                    lemma_count_same(live_pred(k0), nonzero_pred(index@), 256);
                    assert forall|j: int| 0 <= j < 37 implies #[trigger] live_pred(pool@)(j) by {
                        assert(!(pool@[j] is Empty));
                    }
                    lemma_count_all(live_pred(pool@), 37);
                    lemma_count_tail(live_pred(pool@), 37, 48);
                    assert forall|b: u8|
                        #![trigger self.has(b)]
                        #![trigger self.child(b)]
                        self.has(b) == n0.has(b) && (n0.has(b) ==> self.child(b) == n0.child(
                            b,
                        )) by {
                        assert((index@[b as int] != 0) == !(k0[b as int] is Empty));
                    }
                }
            },
        }
    }
}

} // verus!
