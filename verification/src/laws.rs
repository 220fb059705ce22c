//! What holds of the map across its operations.
//!
//! Each operation says in its own contract what it does to the map it
//! stands for. The laws below relate several operations through those
//! statements.

use crate::art::ArtTree;

use crate::keys::{compatible, is_greatest, is_least, lemma_lex_lt_irreflexive, lex_le};
use crate::grow::next_capacity;
use crate::node::{class_holds, Shape};
use crate::shrink::capacity_after_removal;
use vstd::prelude::*;

verus! {

/// The map after the keys of `keys` have been stored one after another,
/// each with the value at its index.
pub open spec fn insert_all<V>(m: Map<Seq<u8>, V>, keys: Seq<Seq<u8>>, values: Seq<V>) -> Map<
    Seq<u8>,
    V,
>
    decreases keys.len(),
{
    if keys.len() == 0 || values.len() == 0 {
        m
    } else {
        insert_all(m.insert(keys[0], values[0]), keys.drop_first(), values.drop_first())
    }
}

/// The map after the keys of `keys` have been deleted one after another.
pub open spec fn remove_all<V>(m: Map<Seq<u8>, V>, keys: Seq<Seq<u8>>) -> Map<Seq<u8>, V>
    decreases keys.len(),
{
    if keys.len() == 0 {
        m
    } else {
        remove_all(m.remove(keys[0]), keys.drop_first())
    }
}

/// `k` is one of `keys`.
pub open spec fn among(keys: Seq<Seq<u8>>, k: Seq<u8>) -> bool {
    exists|i: int| 0 <= i < keys.len() && #[trigger] keys[i] == k
}

/// Storing keys adds no key but those stored.
pub proof fn lemma_insert_all_keys<V>(m: Map<Seq<u8>, V>, keys: Seq<Seq<u8>>, values: Seq<V>)
    ensures
        forall|k: Seq<u8>| #[trigger]
            insert_all(m, keys, values).contains_key(k) ==> m.contains_key(k) || among(keys, k),
    decreases keys.len(),
{
    if keys.len() == 0 || values.len() == 0 {
    } else {
        let rest = keys.drop_first();
        let next = m.insert(keys[0], values[0]);
        lemma_insert_all_keys(next, rest, values.drop_first());
        assert forall|k: Seq<u8>| #[trigger]
            insert_all(m, keys, values).contains_key(k) implies m.contains_key(k) || among(
            keys,
            k,
        ) by {
            assert(insert_all(next, rest, values.drop_first()).contains_key(k));
            if !m.contains_key(k) {
                if k == keys[0] {
                    assert(keys[0] == k);
                } else {
                    assert(!next.contains_key(k));
                    assert(among(rest, k));
                    let i = choose|i: int| 0 <= i < rest.len() && #[trigger] rest[i] == k;
                    assert(keys[i + 1] == k);
                }
            }
        }
    }
}

/// Deleting keys leaves none of those deleted, and adds none.
pub proof fn lemma_remove_all_keys<V>(m: Map<Seq<u8>, V>, keys: Seq<Seq<u8>>)
    ensures
        forall|k: Seq<u8>| #[trigger]
            remove_all(m, keys).contains_key(k) ==> m.contains_key(k) && !among(keys, k),
    decreases keys.len(),
{
    if keys.len() > 0 {
        let rest = keys.drop_first();
        let next = m.remove(keys[0]);
        lemma_remove_all_keys(next, rest);
        assert forall|k: Seq<u8>| #[trigger] remove_all(m, keys).contains_key(k) implies m.contains_key(
            k,
        ) && !among(keys, k) by {
            assert(remove_all(next, rest).contains_key(k));
            assert(next.contains_key(k));
            if among(keys, k) {
                let i = choose|i: int| 0 <= i < keys.len() && #[trigger] keys[i] == k;
                if i > 0 {
                    assert(rest[i - 1] == k);
                    assert(among(rest, k));
                }
            }
        }
    }
}

/// Storing keys into an empty map and then deleting each of them, in any
/// order, leaves the empty map.
pub proof fn law_round_trip<V>(keys: Seq<Seq<u8>>, values: Seq<V>, order: Seq<Seq<u8>>)
    requires
        keys.len() == values.len(),
        forall|i: int| 0 <= i < keys.len() ==> among(order, #[trigger] keys[i]),
    ensures
        remove_all(insert_all(Map::<Seq<u8>, V>::empty(), keys, values), order) == Map::<
            Seq<u8>,
            V,
        >::empty(),
{
    let full = insert_all(Map::<Seq<u8>, V>::empty(), keys, values);
    let left = remove_all(full, order);
    lemma_insert_all_keys(Map::<Seq<u8>, V>::empty(), keys, values);
    lemma_remove_all_keys(full, order);
    assert forall|k: Seq<u8>| !left.contains_key(k) by {
        if left.contains_key(k) {
            assert(full.contains_key(k));
            assert(among(keys, k));
            let i = choose|i: int| 0 <= i < keys.len() && #[trigger] keys[i] == k;
            assert(among(order, keys[i]));
        }
    }
    assert(left =~= Map::<Seq<u8>, V>::empty());
}

/// A tree that stands for the empty map has no node: it is laid out as a new
/// tree is.
pub proof fn law_empty_tree_has_no_node<V>(t: ArtTree<V>)
    requires
        t.wf(),
        t@ == Map::<Seq<u8>, V>::empty(),
    ensures
        t.shape() == Shape::<V>::Empty,
        t@.len() == 0,
{
    t.lemma_root_class();
    t.lemma_shape_of_root();
}

/// A key that is compatible with a stored key and with a key that is then
/// stored can be stored after it: keys that are compatible pair by pair can
/// be stored in any order.
pub proof fn law_admitted_after_insert<V>(
    before: ArtTree<V>,
    after: ArtTree<V>,
    stored: Seq<u8>,
    value: V,
    key: Seq<u8>,
)
    requires
        after@ == before@.insert(stored, value),
        before.admits(key),
        compatible(stored, key),
    ensures
        after.admits(key),
{
}

/// A stored value is found under its key, and stays there while other keys
/// are stored and deleted.
pub proof fn law_get_after_insert<V>(
    before: ArtTree<V>,
    after: ArtTree<V>,
    key: Seq<u8>,
    value: V,
    other: Seq<u8>,
    other_value: V,
    later: ArtTree<V>,
)
    requires
        after@ == before@.insert(key, value),
        later@ == after@.insert(other, other_value) || later@ == after@.remove(other),
        other != key,
    ensures
        after.value_of(key) == Some(value),
        later.value_of(key) == Some(value),
{
}

/// Storing a key a second time gives back the first value, leaves the
/// second in its place, and keeps the number of keys.
pub proof fn law_replace<V>(
    before: ArtTree<V>,
    once: ArtTree<V>,
    twice: ArtTree<V>,
    key: Seq<u8>,
    first: V,
    second: V,
)
    requires
        once.wf(),
        once@ == before@.insert(key, first),
        twice@ == once@.insert(key, second),
    ensures
        once.value_of(key) == Some(first),
        twice.value_of(key) == Some(second),
        twice@.len() == once@.len(),
{
    once.lemma_finite();
    assert(twice@.dom() =~= once@.dom());
}

/// A full node that takes one more child moves to the next class and
/// holds a count that the class allows; a node moves down only at the mark
/// of its class, where the smaller class allows the count; and a node that
/// has just moved up does not move down again when it loses the child it
/// moved for.
pub proof fn law_class_steps(capacity: int, count: int)
    requires
        class_holds(capacity, count),
    ensures
        count == capacity < 256 ==> class_holds(next_capacity(capacity), count + 1),
        count < capacity ==> class_holds(capacity, count + 1),
        count >= 3 ==> class_holds(capacity_after_removal(capacity, count - 1), count - 1),
        capacity_after_removal(capacity, count - 1) != capacity ==> count - 1 == if capacity
            == 256 {
            37int
        } else if capacity == 48 {
            12int
        } else {
            3int
        },
        capacity < 256 ==> capacity_after_removal(next_capacity(capacity), capacity)
            == next_capacity(capacity),
{
}

/// The size counts the leaves: the entries, which are the leaves in
/// traversal order, are as many as the keys of the map.
pub proof fn law_size_counts_leaves<V>(t: ArtTree<V>)
    requires
        t.wf(),
    ensures
        t.entries().len() == t@.len(),
{
    t.lemma_entries_sorted();
    let e = t.entries();
    let keys = Seq::new(e.len(), |i: int| e[i].0);
    assert forall|i: int, j: int| 0 <= i < keys.len() && 0 <= j < keys.len() && i != j implies keys[i]
        != keys[j] by {
        lemma_lex_lt_irreflexive(keys[i]);
        if i < j {
            assert(crate::keys::lex_lt(e[i].0, e[j].0));
        } else {
            assert(crate::keys::lex_lt(e[j].0, e[i].0));
        }
    }
    assert(keys.no_duplicates());
    assert(keys.to_set() =~= t@.dom()) by {
        assert forall|k: Seq<u8>| keys.to_set().contains(k) == t@.dom().contains(k) by {
            if keys.to_set().contains(k) {
                let i = choose|i: int| 0 <= i < keys.len() && keys[i] == k;
                assert(e[i].0 == k);
            }
            if t@.dom().contains(k) {
                let i = choose|i: int| 0 <= i < e.len() && (#[trigger] e[i]).0 == k;
                assert(keys[i] == k);
            }
        }
    }
    keys.unique_seq_to_set();
}

/// The least and the greatest key bound every key of the map, and they are
/// the first and the last that a traversal visits.
pub proof fn law_order_bounds<V>(t: ArtTree<V>, least: Seq<u8>, greatest: Seq<u8>, key: Seq<u8>)
    requires
        t.wf(),
        is_least(t@.dom(), least),
        is_greatest(t@.dom(), greatest),
        t@.contains_key(key),
    ensures
        lex_le(least, key),
        lex_le(key, greatest),
        t.entries().len() > 0,
        t.entries()[0].0 == least,
        t.entries()[t.entries().len() - 1].0 == greatest,
{
    t.lemma_entries_sorted();
    let e = t.entries();
    assert(t@.dom().contains(key));
    let i = choose|i: int| 0 <= i < e.len() && (#[trigger] e[i]).0 == least;
    if i > 0 {
        assert(crate::keys::lex_lt(e[0].0, e[i].0));
        assert(t@.dom().contains(e[0].0));
        crate::keys::lemma_lex_lt_asymmetric(e[0].0, least);
    }
    let j = choose|j: int| 0 <= j < e.len() && (#[trigger] e[j]).0 == greatest;
    if j < e.len() - 1 {
        assert(crate::keys::lex_lt(e[j].0, e[e.len() - 1].0));
        assert(t@.dom().contains(e[e.len() - 1].0));
        crate::keys::lemma_lex_lt_asymmetric(greatest, e[e.len() - 1].0);
    }
}

} // verus!
