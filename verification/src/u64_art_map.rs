//! A map from 64-bit keys to values, kept in an adaptive radix tree under
//! the big-endian bytes of the keys, so that the order of the bytes is the
//! order of the numbers.

use crate::art::ArtTree;
use crate::duplicate::cloned_map;
use crate::iter::{ascending, lists, visited};
use crate::keys::{
    agree_below, compatible, is_greatest, is_least, lemma_same_len_compatible, lex_le, lex_lt,
    lex_lt_at,
};
use vstd::prelude::*;

verus! {

/// The eight bytes of `k`, the most significant first.
pub open spec fn be_bytes(k: u64) -> Seq<u8> {
    seq![
        ((k >> 56) & 0xff) as u8,
        ((k >> 48) & 0xff) as u8,
        ((k >> 40) & 0xff) as u8,
        ((k >> 32) & 0xff) as u8,
        ((k >> 24) & 0xff) as u8,
        ((k >> 16) & 0xff) as u8,
        ((k >> 8) & 0xff) as u8,
        (k & 0xff) as u8,
    ]
}

/// The number whose big-endian bytes are the first eight bytes of `s`.
pub open spec fn from_be_bytes(s: Seq<u8>) -> u64 {
    ((s[0] as u64) << 56) | ((s[1] as u64) << 48) | ((s[2] as u64) << 40) | ((s[3] as u64) << 32) | (
    (s[4] as u64) << 24) | ((s[5] as u64) << 16) | ((s[6] as u64) << 8) | (s[7] as u64)
}

/// Decoding the bytes of a number gives the number back.
pub proof fn lemma_be_round_trip(k: u64)
    ensures
        be_bytes(k).len() == 8,
        from_be_bytes(be_bytes(k)) == k,
        be_bytes(k)[0] as u64 == (k >> 56) & 0xff,
        be_bytes(k)[1] as u64 == (k >> 48) & 0xff,
        be_bytes(k)[2] as u64 == (k >> 40) & 0xff,
        be_bytes(k)[3] as u64 == (k >> 32) & 0xff,
        be_bytes(k)[4] as u64 == (k >> 24) & 0xff,
        be_bytes(k)[5] as u64 == (k >> 16) & 0xff,
        be_bytes(k)[6] as u64 == (k >> 8) & 0xff,
        be_bytes(k)[7] as u64 == k & 0xff,
{
    let b0: u64 = (k >> 56) & 0xff;
    let b1: u64 = (k >> 48) & 0xff;
    let b2: u64 = (k >> 40) & 0xff;
    let b3: u64 = (k >> 32) & 0xff;
    let b4: u64 = (k >> 24) & 0xff;
    let b5: u64 = (k >> 16) & 0xff;
    let b6: u64 = (k >> 8) & 0xff;
    let b7: u64 = k & 0xff;
    assert(b0 <= 255 && b1 <= 255 && b2 <= 255 && b3 <= 255 && b4 <= 255 && b5 <= 255 && b6 <= 255
        && b7 <= 255 && (b0 << 56) | (b1 << 48) | (b2 << 40) | (b3 << 32) | (b4 << 24) | (b5 << 16)
        | (b6 << 8) | b7 == k) by (bit_vector)
        requires
            b0 == (k >> 56) & 0xff,
            b1 == (k >> 48) & 0xff,
            b2 == (k >> 40) & 0xff,
            b3 == (k >> 32) & 0xff,
            b4 == (k >> 24) & 0xff,
            b5 == (k >> 16) & 0xff,
            b6 == (k >> 8) & 0xff,
            b7 == k & 0xff,
    ;
    let s = be_bytes(k);
    assert(s[0] as u64 == b0);
    assert(s[1] as u64 == b1);
    assert(s[2] as u64 == b2);
    assert(s[3] as u64 == b3);
    assert(s[4] as u64 == b4);
    assert(s[5] as u64 == b5);
    assert(s[6] as u64 == b6);
    assert(s[7] as u64 == b7);
}

/// Encoding the number that eight bytes stand for gives the bytes back.
pub proof fn lemma_be_bytes_of_decoded(s: Seq<u8>)
    requires
        s.len() == 8,
    ensures
        be_bytes(from_be_bytes(s)) == s,
{
    let a0: u64 = s[0] as u64;
    let a1: u64 = s[1] as u64;
    let a2: u64 = s[2] as u64;
    let a3: u64 = s[3] as u64;
    let a4: u64 = s[4] as u64;
    let a5: u64 = s[5] as u64;
    let a6: u64 = s[6] as u64;
    let a7: u64 = s[7] as u64;
    let k: u64 = (a0 << 56) | (a1 << 48) | (a2 << 40) | (a3 << 32) | (a4 << 24) | (a5 << 16) | (a6
        << 8) | a7;
    assert((k >> 56) & 0xff == a0 && (k >> 48) & 0xff == a1 && (k >> 40) & 0xff == a2 && (k >> 32)
        & 0xff == a3 && (k >> 24) & 0xff == a4 && (k >> 16) & 0xff == a5 && (k >> 8) & 0xff == a6
        && k & 0xff == a7) by (bit_vector)
        requires
            a0 <= 255,
            a1 <= 255,
            a2 <= 255,
            a3 <= 255,
            a4 <= 255,
            a5 <= 255,
            a6 <= 255,
            a7 <= 255,
            k == (a0 << 56) | (a1 << 48) | (a2 << 40) | (a3 << 32) | (a4 << 24) | (a5 << 16) | (a6
                << 8) | a7,
    ;
    assert(be_bytes(k) =~= s);
}

/// Two numbers with the same bytes are the same number.
pub proof fn lemma_be_injective(k1: u64, k2: u64)
    requires
        be_bytes(k1) == be_bytes(k2),
    ensures
        k1 == k2,
{
    lemma_be_round_trip(k1);
    lemma_be_round_trip(k2);
}

/// The order of two numbers is the lexicographic order of their bytes.
pub proof fn lemma_be_order(k1: u64, k2: u64)
    ensures
        k1 < k2 <==> lex_lt(be_bytes(k1), be_bytes(k2)),
{
    let a = be_bytes(k1);
    let b = be_bytes(k2);
    let a0: u64 = (k1 >> 56) & 0xff;
    let a1: u64 = (k1 >> 48) & 0xff;
    let a2: u64 = (k1 >> 40) & 0xff;
    let a3: u64 = (k1 >> 32) & 0xff;
    let a4: u64 = (k1 >> 24) & 0xff;
    let a5: u64 = (k1 >> 16) & 0xff;
    let a6: u64 = (k1 >> 8) & 0xff;
    let a7: u64 = k1 & 0xff;
    let b0: u64 = (k2 >> 56) & 0xff;
    let b1: u64 = (k2 >> 48) & 0xff;
    let b2: u64 = (k2 >> 40) & 0xff;
    let b3: u64 = (k2 >> 32) & 0xff;
    let b4: u64 = (k2 >> 24) & 0xff;
    let b5: u64 = (k2 >> 16) & 0xff;
    let b6: u64 = (k2 >> 8) & 0xff;
    let b7: u64 = k2 & 0xff;
    let t7: bool = a7 < b7;
    let t6: bool = a6 < b6 || (a6 == b6 && t7);
    let t5: bool = a5 < b5 || (a5 == b5 && t6);
    let t4: bool = a4 < b4 || (a4 == b4 && t5);
    let t3: bool = a3 < b3 || (a3 == b3 && t4);
    let t2: bool = a2 < b2 || (a2 == b2 && t3);
    let t1: bool = a1 < b1 || (a1 == b1 && t2);
    let below: bool = a0 < b0 || (a0 == b0 && t1);
    assert((k1 < k2) == below) by (bit_vector)
        requires
            a0 == (k1 >> 56) & 0xff,
            a1 == (k1 >> 48) & 0xff,
            a2 == (k1 >> 40) & 0xff,
            a3 == (k1 >> 32) & 0xff,
            a4 == (k1 >> 24) & 0xff,
            a5 == (k1 >> 16) & 0xff,
            a6 == (k1 >> 8) & 0xff,
            a7 == k1 & 0xff,
            b0 == (k2 >> 56) & 0xff,
            b1 == (k2 >> 48) & 0xff,
            b2 == (k2 >> 40) & 0xff,
            b3 == (k2 >> 32) & 0xff,
            b4 == (k2 >> 24) & 0xff,
            b5 == (k2 >> 16) & 0xff,
            b6 == (k2 >> 8) & 0xff,
            b7 == k2 & 0xff,
            t7 == (a7 < b7),
            t6 == (a6 < b6 || (a6 == b6 && t7)),
            t5 == (a5 < b5 || (a5 == b5 && t6)),
            t4 == (a4 < b4 || (a4 == b4 && t5)),
            t3 == (a3 < b3 || (a3 == b3 && t4)),
            t2 == (a2 < b2 || (a2 == b2 && t3)),
            t1 == (a1 < b1 || (a1 == b1 && t2)),
            below == (a0 < b0 || (a0 == b0 && t1)),
    ;
    lemma_be_round_trip(k1);
    lemma_be_round_trip(k2);
    assert(a[0] as u64 == a0 && a[1] as u64 == a1 && a[2] as u64 == a2 && a[3] as u64 == a3);
    assert(a[4] as u64 == a4 && a[5] as u64 == a5 && a[6] as u64 == a6 && a[7] as u64 == a7);
    assert(b[0] as u64 == b0 && b[1] as u64 == b1 && b[2] as u64 == b2 && b[3] as u64 == b3);
    assert(b[4] as u64 == b4 && b[5] as u64 == b5 && b[6] as u64 == b6 && b[7] as u64 == b7);
    if below {
        let i: int = if a0 < b0 {
            0
        } else if a1 < b1 {
            1
        } else if a2 < b2 {
            2
        } else if a3 < b3 {
            3
        } else if a4 < b4 {
            4
        } else if a5 < b5 {
            5
        } else if a6 < b6 {
            6
        } else {
            7
        };
        assert(lex_lt_at(a, b, i));
    }
    if lex_lt(a, b) {
        let i = choose|i: int| lex_lt_at(a, b, i);
        assert(i < 8);
        assert(agree_below(a, b, i));
        if i > 0 {
            assert(a[0] == b[0]);
        }
        if i > 1 {
            assert(a[1] == b[1]);
        }
        if i > 2 {
            assert(a[2] == b[2]);
        }
        if i > 3 {
            assert(a[3] == b[3]);
        }
        if i > 4 {
            assert(a[4] == b[4]);
        }
        if i > 5 {
            assert(a[5] == b[5]);
        }
        if i > 6 {
            assert(a[6] == b[6]);
        }
        assert(below);
    }
}

/// The big-endian bytes of `key`.
pub fn u64_to_key(key: u64) -> (r: [u8; 8])
    ensures
        r@ == be_bytes(key),
{
    let b0: u64 = (key >> 56) & 0xff;
    let b1: u64 = (key >> 48) & 0xff;
    let b2: u64 = (key >> 40) & 0xff;
    let b3: u64 = (key >> 32) & 0xff;
    let b4: u64 = (key >> 24) & 0xff;
    let b5: u64 = (key >> 16) & 0xff;
    let b6: u64 = (key >> 8) & 0xff;
    let b7: u64 = key & 0xff;
    assert(b0 <= 255 && b1 <= 255 && b2 <= 255 && b3 <= 255 && b4 <= 255 && b5 <= 255 && b6 <= 255
        && b7 <= 255) by (bit_vector)
        requires
            b0 == (key >> 56) & 0xff,
            b1 == (key >> 48) & 0xff,
            b2 == (key >> 40) & 0xff,
            b3 == (key >> 32) & 0xff,
            b4 == (key >> 24) & 0xff,
            b5 == (key >> 16) & 0xff,
            b6 == (key >> 8) & 0xff,
            b7 == key & 0xff,
    ;
    let r: [u8; 8] = [
        b0 as u8,
        b1 as u8,
        b2 as u8,
        b3 as u8,
        b4 as u8,
        b5 as u8,
        b6 as u8,
        b7 as u8,
    ];
    assert(r@ =~= be_bytes(key));
    r
}

/// The number that the first eight bytes of a stored key stand for.
pub fn u8_list_to_u64_key(stored_key: &Vec<u8>) -> (r: u64)
    requires
        stored_key@.len() >= 8,
    ensures
        r == from_be_bytes(stored_key@),
{
    ((stored_key[0] as u64) << 56) | ((stored_key[1] as u64) << 48) | ((stored_key[2] as u64) << 40)
        | ((stored_key[3] as u64) << 32) | ((stored_key[4] as u64) << 24) | ((stored_key[5] as u64)
        << 16) | ((stored_key[6] as u64) << 8) | (stored_key[7] as u64)
}

/// The entries of the tree with their keys decoded.
pub open spec fn decoded<V>(entries: Seq<(Seq<u8>, V)>) -> Seq<(u64, V)> {
    Seq::new(entries.len(), |i: int| (from_be_bytes(entries[i].0), entries[i].1))
}

/// The keys of `entries` ascend strictly.
pub open spec fn ascending_u64<V>(entries: Seq<(u64, V)>) -> bool {
    forall|i: int, j: int|
        0 <= i < j < entries.len() ==> (#[trigger] entries[i]).0 < (#[trigger] entries[j]).0
}

/// `entries` lists each pair of `m` and nothing else.
pub open spec fn lists_u64<V>(entries: Seq<(u64, V)>, m: Map<u64, V>) -> bool {
    &&& forall|i: int|
        0 <= i < entries.len() ==> m.contains_key((#[trigger] entries[i]).0) && m[entries[i].0]
            == entries[i].1
    &&& forall|k: u64|
        m.contains_key(k) ==> exists|i: int| 0 <= i < entries.len() && (#[trigger] entries[i]).0 == k
}

/// Map indexed by u64-keys using an Adaptive Radix Tree
#[derive(Debug)]
pub struct U64ArtMap<V> {
    tree: ArtTree<V>,
}

impl<V> View for U64ArtMap<V> {
    type V = Map<u64, V>;

    /// The keys of the map, each with its value.
    closed spec fn view(&self) -> Map<u64, V> {
        Map::new(
            |k: u64| self.tree@.contains_key(be_bytes(k)),
            |k: u64| self.tree@[be_bytes(k)],
        )
    }
}

impl<V: Clone> U64ArtMap<V> {
    /// A copy of the map: the same keys, each with a clone of its value.
    pub(crate) fn duplicate(&self) -> (r: Self)
        ensures
            self.wf() ==> r.wf(),
            self.wf() ==> cloned_map(self@, r@),
    {
        let tree = self.tree.clone();
        U64ArtMap { tree }
    }
}

impl<V> U64ArtMap<V> {
    /// The map is well formed: so is its tree, whose keys all have eight bytes.
    pub closed spec fn wf(self) -> bool {
        &&& self.tree.wf()
        &&& forall|k: Seq<u8>| self.tree@.contains_key(k) ==> k.len() == 8
    }

    /// The tree of the map is what storing `value` under the bytes of `key`
    /// makes of the tree of `old`, node by node.
    pub closed spec fn inserted(self, old: Self, key: u64, value: V) -> bool {
        self.tree.inserted(old.tree, be_bytes(key), value)
    }

    /// The tree of the map is what taking the bytes of `key` out makes of
    /// the tree of `old`, node by node. Where the key is absent no node
    /// changes.
    pub closed spec fn deleted(self, old: Self, key: u64) -> bool {
        self.tree.deleted(old.tree, be_bytes(key))
    }

    /// The pairs of the map in the order in which `iter` visits them.
    pub closed spec fn entries(self) -> Seq<(u64, V)> {
        decoded(self.tree.entries())
    }

    /// The value under `key`, if the map has one.
    pub open spec fn value_of(self, key: u64) -> Option<V> {
        if self@.contains_key(key) {
            Some(self@[key])
        } else {
            None
        }
    }

    /// `k` is the least key of the map.
    pub open spec fn is_min(self, k: u64) -> bool {
        self@.contains_key(k) && forall|o: u64| self@.contains_key(o) ==> k <= o
    }

    /// `k` is the greatest key of the map.
    pub open spec fn is_max(self, k: u64) -> bool {
        self@.contains_key(k) && forall|o: u64| self@.contains_key(o) ==> o <= k
    }

    /// The entries are the pairs of the map, each once, in strictly
    /// ascending order of their keys.
    pub proof fn lemma_entries_sorted(self)
        requires
            self.wf(),
        ensures
            ascending_u64(self.entries()),
            lists_u64(self.entries(), self@),
    {
        let te = self.tree.entries();
        let e = self.entries();
        self.tree.lemma_entries_sorted();
        assert forall|i: int, j: int| 0 <= i < j < e.len() implies (#[trigger] e[i]).0 < (
        #[trigger] e[j]).0 by {
            assert(lex_lt(te[i].0, te[j].0));
            lemma_be_bytes_of_decoded(te[i].0);
            lemma_be_bytes_of_decoded(te[j].0);
            lemma_be_order(e[i].0, e[j].0);
        }
        assert forall|i: int| 0 <= i < e.len() implies self@.contains_key((#[trigger] e[i]).0)
            && self@[e[i].0] == e[i].1 by {
            assert(self.tree@.contains_key(te[i].0));
            lemma_be_bytes_of_decoded(te[i].0);
        }
        assert forall|k: u64| self@.contains_key(k) implies exists|i: int|
            0 <= i < e.len() && (#[trigger] e[i]).0 == k by {
            let i = choose|i: int| 0 <= i < te.len() && (#[trigger] te[i]).0 == be_bytes(k);
            lemma_be_round_trip(k);
            assert(e[i].0 == k);
        }
    }

    /// The least stored key, decoded, is the least key of the map.
    proof fn lemma_least(self, stored: Seq<u8>)
        requires
            self.wf(),
            is_least(self.tree@.dom(), stored),
        ensures
            self.is_min(from_be_bytes(stored)),
            be_bytes(from_be_bytes(stored)) == stored,
    {
        let k = from_be_bytes(stored);
        assert(self.tree@.contains_key(stored));
        lemma_be_bytes_of_decoded(stored);
        assert forall|o: u64| self@.contains_key(o) implies k <= o by {
            assert(self.tree@.dom().contains(be_bytes(o)));
            assert(lex_le(stored, be_bytes(o)));
            lemma_be_order(o, k);
            if o < k {
                crate::keys::lemma_lex_lt_asymmetric(be_bytes(o), stored);
            }
        }
    }

    /// The greatest stored key, decoded, is the greatest key of the map.
    proof fn lemma_greatest(self, stored: Seq<u8>)
        requires
            self.wf(),
            is_greatest(self.tree@.dom(), stored),
        ensures
            self.is_max(from_be_bytes(stored)),
            be_bytes(from_be_bytes(stored)) == stored,
    {
        let k = from_be_bytes(stored);
        assert(self.tree@.contains_key(stored));
        lemma_be_bytes_of_decoded(stored);
        assert forall|o: u64| self@.contains_key(o) implies o <= k by {
            assert(self.tree@.dom().contains(be_bytes(o)));
            assert(lex_le(be_bytes(o), stored));
            lemma_be_order(k, o);
            if k < o {
                crate::keys::lemma_lex_lt_asymmetric(stored, be_bytes(o));
            }
        }
    }

    /// The map has as many keys as its tree, and finitely many.
    proof fn lemma_len(self)
        requires
            self.wf(),
        ensures
            self@.dom().finite(),
            self@.len() == self.tree@.len(),
    {
        self.tree.lemma_finite();
        let stored = self.tree@.dom();
        let decode = |s: Seq<u8>| from_be_bytes(s);
        assert forall|s1: Seq<u8>, s2: Seq<u8>|
            stored.contains(s1) && stored.contains(s2) && #[trigger] decode(s1) == #[trigger] decode(
                s2,
            ) implies s1 == s2 by {
            lemma_be_bytes_of_decoded(s1);
            lemma_be_bytes_of_decoded(s2);
        }
        assert(stored.map(decode) =~= self@.dom()) by {
            assert forall|k: u64| stored.map(decode).contains(k) == self@.dom().contains(k) by {
                if stored.map(decode).contains(k) {
                    let s = choose|s: Seq<u8>| stored.contains(s) && decode(s) == k;
                    lemma_be_bytes_of_decoded(s);
                }
                if self@.dom().contains(k) {
                    lemma_be_round_trip(k);
                    assert(stored.contains(be_bytes(k)) && decode(be_bytes(k)) == k);
                }
            }
        }
        vstd::set_lib::lemma_map_size(stored, self@.dom(), decode);
    }

    /// A well-formed map holds finitely many keys.
    pub proof fn lemma_finite(self)
        requires
            self.wf(),
        ensures
            self@.dom().finite(),
    {
        self.lemma_len();
    }

    /// Every key of eight bytes can be stored.
    proof fn lemma_admits(self, key: u64)
        requires
            self.wf(),
        ensures
            self.tree.admits(be_bytes(key)),
    {
        assert forall|k: Seq<u8>| self.tree@.contains_key(k) implies compatible(
            k,
            be_bytes(key),
        ) by {
            lemma_same_len_compatible(k, be_bytes(key));
        }
    }

    /// An empty map.
    pub fn new() -> (r: Self)
        ensures
            r.wf(),
            r@ == Map::<u64, V>::empty(),
    {
        let r = Self { tree: ArtTree::new() };
        assert(r@ =~= Map::<u64, V>::empty());
        r
    }

    /// Returns a reference to the value stored at the given key if it exists
    pub fn get(&self, key: &u64) -> (r: Option<&V>)
        requires
            self.wf(),
        ensures
            r == if self@.contains_key(*key) {
                Some(&self@[*key])
            } else {
                None
            },
    {
        let key_bytes: [u8; 8] = u64_to_key(*key);
        self.tree.get(key_bytes.as_slice())
    }

    /// Returns a mutable reference to the value stored at the given key if it exists
    pub fn get_mut(&mut self, key: &u64) -> (r: Option<&mut V>)
        requires
            old(self).wf(),
        ensures
            final(self).wf(),
            match r {
                Some(v) => {
                    &&& old(self)@.contains_key(*key)
                    &&& *v == old(self)@[*key]
                    &&& final(self)@ == old(self)@.insert(*key, *final(v))
                    &&& final(self).inserted(*old(self), *key, *final(v))
                },
                None => !old(self)@.contains_key(*key) && final(self)@ == old(self)@,
            },
    {
        let key_bytes: [u8; 8] = u64_to_key(*key);
        let ghost before = *self;
        let ghost after = *final(self);
        proof {
            assert forall|k: u64| k != *key implies be_bytes(k) != be_bytes(*key) by {
                if be_bytes(k) == be_bytes(*key) {
                    lemma_be_injective(k, *key);
                }
            }
        }
        match self.tree.get_mut(key_bytes.as_slice()) {
            Some(v) => {
                proof {
                    assert(after@ =~= before@.insert(*key, *final(v)));
                }
                Some(v)
            },
            None => {
                proof {
                    assert(after@ =~= before@);
                }
                None
            },
        }
    }

    /// Returns the key and a reference to the value of the minimum element in the map
    pub fn minimum(&self) -> (r: Option<(u64, &V)>)
        requires
            self.wf(),
        ensures
            match r {
                Some((k, v)) => self.is_min(k) && *v == self@[k],
                None => self@ == Map::<u64, V>::empty(),
            },
    {
        match self.tree.minimum() {
            Some((k, v)) => {
                proof {
                    self.lemma_least(k@);
                }
                Some((u8_list_to_u64_key(k), v))
            },
            None => {
                assert(self@ =~= Map::<u64, V>::empty());
                None
            },
        }
    }

    /// Returns the key and a reference to the value of the maximum element in the map
    pub fn maximum(&self) -> (r: Option<(u64, &V)>)
        requires
            self.wf(),
        ensures
            match r {
                Some((k, v)) => self.is_max(k) && *v == self@[k],
                None => self@ == Map::<u64, V>::empty(),
            },
    {
        match self.tree.maximum() {
            Some((k, v)) => {
                proof {
                    self.lemma_greatest(k@);
                }
                Some((u8_list_to_u64_key(k), v))
            },
            None => {
                assert(self@ =~= Map::<u64, V>::empty());
                None
            },
        }
    }

    /// Returns the key and a mutable reference to the value of the minimum element in the map
    pub fn minimum_mut(&mut self) -> (r: Option<(u64, &mut V)>)
        requires
            old(self).wf(),
        ensures
            final(self).wf(),
            match r {
                Some((k, v)) => {
                    &&& old(self).is_min(k)
                    &&& *v == old(self)@[k]
                    &&& final(self)@ == old(self)@.insert(k, *final(v))
                    &&& final(self).inserted(*old(self), k, *final(v))
                },
                None => old(self)@ == Map::<u64, V>::empty() && final(self)@ == old(self)@,
            },
    {
        let ghost before = *self;
        let ghost after = *final(self);
        match self.tree.minimum_mut() {
            Some((k, v)) => {
                let key: u64 = u8_list_to_u64_key(k);
                proof {
                    before.lemma_least(k@);
                    assert forall|o: u64| o != key implies be_bytes(o) != be_bytes(key) by {
                        if be_bytes(o) == be_bytes(key) {
                            lemma_be_injective(o, key);
                        }
                    }
                    assert(after@ =~= before@.insert(key, *final(v)));
                }
                Some((key, v))
            },
            None => {
                proof {
                    assert(before@ =~= Map::<u64, V>::empty());
                    assert(after@ =~= before@);
                }
                None
            },
        }
    }

    /// Returns the key and a mutable reference to the value of the maximum element in the map
    pub fn maximum_mut(&mut self) -> (r: Option<(u64, &mut V)>)
        requires
            old(self).wf(),
        ensures
            final(self).wf(),
            match r {
                Some((k, v)) => {
                    &&& old(self).is_max(k)
                    &&& *v == old(self)@[k]
                    &&& final(self)@ == old(self)@.insert(k, *final(v))
                    &&& final(self).inserted(*old(self), k, *final(v))
                },
                None => old(self)@ == Map::<u64, V>::empty() && final(self)@ == old(self)@,
            },
    {
        let ghost before = *self;
        let ghost after = *final(self);
        match self.tree.maximum_mut() {
            Some((k, v)) => {
                let key: u64 = u8_list_to_u64_key(k);
                proof {
                    before.lemma_greatest(k@);
                    assert forall|o: u64| o != key implies be_bytes(o) != be_bytes(key) by {
                        if be_bytes(o) == be_bytes(key) {
                            lemma_be_injective(o, key);
                        }
                    }
                    assert(after@ =~= before@.insert(key, *final(v)));
                }
                Some((key, v))
            },
            None => {
                proof {
                    assert(before@ =~= Map::<u64, V>::empty());
                    assert(after@ =~= before@);
                }
                None
            },
        }
    }

    /// Inserts the given value at the given key and returns the previous value stored at the key if
    /// such exists.
    pub fn insert(&mut self, key: u64, value: V) -> (r: Option<V>)
        requires
            old(self).wf(),
            old(self)@.len() < u64::MAX,
        ensures
            final(self).wf(),
            final(self)@ == old(self)@.insert(key, value),
            r == old(self).value_of(key),
            final(self).inserted(*old(self), key, value),
    {
        let key_bytes: [u8; 8] = u64_to_key(key);
        proof {
            self.lemma_admits(key);
            self.lemma_len();
        }
        let r = self.tree.insert(key_bytes.as_slice(), value);
        proof {
            assert forall|k: u64| k != key implies be_bytes(k) != be_bytes(key) by {
                if be_bytes(k) == be_bytes(key) {
                    lemma_be_injective(k, key);
                }
            }
            assert(self@ =~= old(self)@.insert(key, value));
        }
        r
    }

    /// Inserts as `insert` does where the map can count one more key, and
    /// hands `value` back where it cannot.
    pub fn try_insert(&mut self, key: u64, value: V) -> (r: Result<Option<V>, V>)
        requires
            old(self).wf(),
        ensures
            final(self).wf(),
            match r {
                Ok(previous) => {
                    &&& old(self)@.len() < u64::MAX
                    &&& final(self)@ == old(self)@.insert(key, value)
                    &&& previous == old(self).value_of(key)
                    &&& final(self).inserted(*old(self), key, value)
                },
                Err(back) => {
                    &&& old(self)@.len() >= u64::MAX
                    &&& back == value
                    &&& *final(self) == *old(self)
                },
            },
    {
        let key_bytes: [u8; 8] = u64_to_key(key);
        proof {
            self.lemma_admits(key);
            self.lemma_len();
        }
        let r = self.tree.try_insert(key_bytes.as_slice(), value);
        proof {
            assert forall|k: u64| k != key implies be_bytes(k) != be_bytes(key) by {
                if be_bytes(k) == be_bytes(key) {
                    lemma_be_injective(k, key);
                }
            }
            if r is Ok {
                assert(self@ =~= old(self)@.insert(key, value));
            }
        }
        r
    }

    /// Deletes and returns the value stored at the given key.
    pub fn delete(&mut self, key: u64) -> (r: Option<V>)
        requires
            old(self).wf(),
        ensures
            final(self).wf(),
            final(self)@ == old(self)@.remove(key),
            r == old(self).value_of(key),
            final(self).deleted(*old(self), key),
    {
        let key_bytes: [u8; 8] = u64_to_key(key);
        let r = self.tree.delete(key_bytes.as_slice());
        proof {
            assert forall|k: u64| k != key implies be_bytes(k) != be_bytes(key) by {
                if be_bytes(k) == be_bytes(key) {
                    lemma_be_injective(k, key);
                }
            }
            assert(self@ =~= old(self)@.remove(key));
        }
        r
    }

    /// Iterates over the values stored in the map in sorted order and calls the callback on the
    /// values.
    ///
    /// If the callback returns true, the iteration stops (before continuing to any successive
    /// element).
    pub fn iter<CB>(&mut self, callback: CB) -> (r: bool) where CB: FnMut(&V) -> bool
        requires
            old(self).wf(),
            forall|k: u64| old(self)@.contains_key(k) ==> call_requires(callback, (&old(self)@[k],)),
        ensures
            *final(self) == *old(self),
            ascending_u64(old(self).entries()),
            lists_u64(old(self).entries(), old(self)@),
            visited(callback, old(self).entries(), r),
    {
        proof {
            self.lemma_entries_sorted();
            assert forall|k: Seq<u8>| self.tree@.contains_key(k) implies call_requires(
                callback,
                (&self.tree@[k],),
            ) by {
                lemma_be_bytes_of_decoded(k);
                assert(self@.contains_key(from_be_bytes(k)));
            }
        }
        let ghost te = self.tree.entries();
        let ghost e = self.entries();
        let r = self.tree.iter(callback);
        proof {
            if r {
                let i = choose|i: int|
                    0 <= i < te.len() && call_ensures(callback, (&(#[trigger] te[i]).1,), true)
                        && forall|j: int|
                        0 <= j < i ==> call_ensures(callback, (&(#[trigger] te[j]).1,), false);
                assert(e[i].1 == te[i].1);
                assert forall|j: int| 0 <= j < i implies call_ensures(
                    callback,
                    (&(#[trigger] e[j]).1,),
                    false,
                ) by {
                    assert(e[j].1 == te[j].1);
                }
            } else {
                assert forall|j: int| 0 <= j < e.len() implies call_ensures(
                    callback,
                    (&(#[trigger] e[j]).1,),
                    false,
                ) by {
                    assert(e[j].1 == te[j].1);
                }
            }
        }
        r
    }

    /// Removes and returns the minimal key-value pair from the map
    pub fn pop_first(&mut self) -> (r: Option<(u64, V)>)
        requires
            old(self).wf(),
        ensures
            final(self).wf(),
            match r {
                Some((k, v)) => {
                    &&& old(self).is_min(k)
                    &&& v == old(self)@[k]
                    &&& final(self)@ == old(self)@.remove(k)
                    &&& final(self).deleted(*old(self), k)
                },
                None => old(self)@ == Map::<u64, V>::empty() && final(self)@ == old(self)@,
            },
    {
        match self.tree.pop_first() {
            Some((k, v)) => {
                let key: u64 = u8_list_to_u64_key(&k);
                proof {
                    old(self).lemma_least(k@);
                    assert forall|o: u64| o != key implies be_bytes(o) != be_bytes(key) by {
                        if be_bytes(o) == be_bytes(key) {
                            lemma_be_injective(o, key);
                        }
                    }
                    assert(self@ =~= old(self)@.remove(key));
                }
                Some((key, v))
            },
            None => {
                assert(self@ =~= Map::<u64, V>::empty());
                assert(old(self)@ =~= Map::<u64, V>::empty());
                None
            },
        }
    }

    /// Removes and returns the maximal key-value pair from the map
    pub fn pop_last(&mut self) -> (r: Option<(u64, V)>)
        requires
            old(self).wf(),
        ensures
            final(self).wf(),
            match r {
                Some((k, v)) => {
                    &&& old(self).is_max(k)
                    &&& v == old(self)@[k]
                    &&& final(self)@ == old(self)@.remove(k)
                    &&& final(self).deleted(*old(self), k)
                },
                None => old(self)@ == Map::<u64, V>::empty() && final(self)@ == old(self)@,
            },
    {
        match self.tree.pop_last() {
            Some((k, v)) => {
                let key: u64 = u8_list_to_u64_key(&k);
                proof {
                    old(self).lemma_greatest(k@);
                    assert forall|o: u64| o != key implies be_bytes(o) != be_bytes(key) by {
                        if be_bytes(o) == be_bytes(key) {
                            lemma_be_injective(o, key);
                        }
                    }
                    assert(self@ =~= old(self)@.remove(key));
                }
                Some((key, v))
            },
            None => {
                assert(self@ =~= Map::<u64, V>::empty());
                assert(old(self)@ =~= Map::<u64, V>::empty());
                None
            },
        }
    }
}

} // verus!
