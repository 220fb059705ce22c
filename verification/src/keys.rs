//! Byte-string keys: prefixes, divergence and the lexicographic order.

use vstd::prelude::*;

verus! {

/// `k` begins with the bytes of `p`.
pub open spec fn starts_with(k: Seq<u8>, p: Seq<u8>) -> bool {
    &&& p.len() <= k.len()
    &&& forall|i: int| 0 <= i < p.len() ==> k[i] == p[i]
}

/// `a` and `b` hold the same bytes at every index below `n`.
pub open spec fn agree_below(a: Seq<u8>, b: Seq<u8>, n: int) -> bool {
    forall|j: int| 0 <= j < n ==> a[j] == b[j]
}

/// `a` and `b` differ at some index that lies inside both.
pub open spec fn diverge(a: Seq<u8>, b: Seq<u8>) -> bool {
    exists|i: int| 0 <= i < a.len() && i < b.len() && a[i] != b[i]
}

/// Two keys can live in one tree: they are equal, or neither is a proper
/// prefix of the other.
pub open spec fn compatible(a: Seq<u8>, b: Seq<u8>) -> bool {
    a == b || diverge(a, b)
}

/// `i` is the first index at which `a` and `b` stop agreeing, with `a` the
/// smaller of the two there (or exhausted there while `b` goes on).
pub open spec fn lex_lt_at(a: Seq<u8>, b: Seq<u8>, i: int) -> bool {
    &&& 0 <= i <= a.len()
    &&& i <= b.len()
    &&& agree_below(a, b, i)
    &&& if i == a.len() {
        i < b.len()
    } else {
        i < b.len() && a[i] < b[i]
    }
}

/// Strict lexicographic order over unsigned bytes.
pub open spec fn lex_lt(a: Seq<u8>, b: Seq<u8>) -> bool {
    exists|i: int| lex_lt_at(a, b, i)
}

/// Lexicographic order over unsigned bytes.
pub open spec fn lex_le(a: Seq<u8>, b: Seq<u8>) -> bool {
    a == b || lex_lt(a, b)
}

/// `k` is the least key of `s`.
pub open spec fn is_least(s: Set<Seq<u8>>, k: Seq<u8>) -> bool {
    s.contains(k) && forall|o: Seq<u8>| s.contains(o) ==> lex_le(k, o)
}

/// `k` is the greatest key of `s`.
pub open spec fn is_greatest(s: Set<Seq<u8>>, k: Seq<u8>) -> bool {
    s.contains(k) && forall|o: Seq<u8>| s.contains(o) ==> lex_le(o, k)
}

/// The number of bytes, counted from `depth`, on which `a` and `b` agree
/// before they first differ or one of them ends.
pub open spec fn common_len(a: Seq<u8>, b: Seq<u8>, depth: int) -> int
    decreases a.len() - depth,
{
    if depth < a.len() && depth < b.len() && a[depth] == b[depth] {
        1 + common_len(a, b, depth + 1)
    } else {
        0
    }
}

pub proof fn lemma_common_len(a: Seq<u8>, b: Seq<u8>, depth: int)
    requires
        0 <= depth,
    ensures
        0 <= common_len(a, b, depth),
        depth <= a.len() && depth <= b.len() ==> depth + common_len(a, b, depth) <= a.len() && depth
            + common_len(a, b, depth) <= b.len(),
        forall|j: int| depth <= j < depth + common_len(a, b, depth) ==> a[j] == b[j],
        depth + common_len(a, b, depth) < a.len() && depth + common_len(a, b, depth) < b.len()
            ==> a[depth + common_len(a, b, depth)] != b[depth + common_len(a, b, depth)],
    decreases a.len() - depth,
{
    if depth < a.len() && depth < b.len() && a[depth] == b[depth] {
        lemma_common_len(a, b, depth + 1);
    }
}

/// Two keys that agree below `i` and differ at `i` are ordered by their bytes at `i`.
pub proof fn lemma_lex_lt_by_byte(a: Seq<u8>, b: Seq<u8>, i: int)
    requires
        0 <= i < a.len(),
        i < b.len(),
        agree_below(a, b, i),
        a[i] < b[i],
    ensures
        lex_lt(a, b),
        !lex_lt(b, a),
        a != b,
{
    assert(lex_lt_at(a, b, i));
    if lex_lt(b, a) {
        let j = choose|j: int| lex_lt_at(b, a, j);
        if j < i {
            assert(a[j] == b[j]);
        } else if j > i {
            assert(b[i] == a[i]);
        }
    }
}

/// The strict order is irreflexive.
pub proof fn lemma_lex_lt_irreflexive(a: Seq<u8>)
    ensures
        !lex_lt(a, a),
{
}

/// The strict order is transitive.
pub proof fn lemma_lex_lt_transitive(a: Seq<u8>, b: Seq<u8>, c: Seq<u8>)
    requires
        lex_lt(a, b),
        lex_lt(b, c),
    ensures
        lex_lt(a, c),
{
    let i = choose|i: int| lex_lt_at(a, b, i);
    let j = choose|j: int| lex_lt_at(b, c, j);
    let m = if i <= j {
        i
    } else {
        j
    };
    assert forall|x: int| 0 <= x < m implies a[x] == c[x] by {
        assert(a[x] == b[x]);
        assert(b[x] == c[x]);
    }
    if i < j {
        assert(b[i] == c[i]);
    } else if j < i {
        assert(a[j] == b[j]);
    }
    assert(lex_lt_at(a, c, m));
}

/// Any two keys are equal or strictly ordered one way.
pub proof fn lemma_lex_total(a: Seq<u8>, b: Seq<u8>)
    ensures
        a == b || lex_lt(a, b) || lex_lt(b, a),
{
    lemma_common_len(a, b, 0);
    let n = common_len(a, b, 0);
    if n < a.len() && n < b.len() {
        if a[n] < b[n] {
            assert(lex_lt_at(a, b, n));
        } else {
            assert(lex_lt_at(b, a, n));
        }
    } else if n == a.len() && n == b.len() {
        assert(a =~= b);
    } else if n == a.len() {
        assert(lex_lt_at(a, b, n));
    } else {
        assert(lex_lt_at(b, a, n));
    }
}

/// No two keys are strictly ordered both ways.
pub proof fn lemma_lex_lt_asymmetric(a: Seq<u8>, b: Seq<u8>)
    requires
        lex_lt(a, b),
    ensures
        !lex_lt(b, a),
{
    if lex_lt(b, a) {
        lemma_lex_lt_transitive(a, b, a);
    }
}

/// A set of keys has at most one least key.
pub proof fn lemma_least_unique(s: Set<Seq<u8>>, k1: Seq<u8>, k2: Seq<u8>)
    requires
        is_least(s, k1),
        is_least(s, k2),
    ensures
        k1 == k2,
{
    if k1 != k2 {
        lemma_lex_lt_asymmetric(k1, k2);
    }
}

/// A set of keys has at most one greatest key.
pub proof fn lemma_greatest_unique(s: Set<Seq<u8>>, k1: Seq<u8>, k2: Seq<u8>)
    requires
        is_greatest(s, k1),
        is_greatest(s, k2),
    ensures
        k1 == k2,
{
    if k1 != k2 {
        lemma_lex_lt_asymmetric(k1, k2);
    }
}

/// Keys of one length are always compatible.
pub proof fn lemma_same_len_compatible(a: Seq<u8>, b: Seq<u8>)
    requires
        a.len() == b.len(),
    ensures
        compatible(a, b),
{
    if a != b {
        assert(!(a =~= b));
    }
}

/// A key that agrees with a longer stored key on its first `n` bytes, and
/// is compatible with it, has more than `n` bytes.
pub proof fn lemma_not_exhausted(stored: Seq<u8>, key: Seq<u8>, n: int)
    requires
        compatible(stored, key),
        0 <= n <= key.len(),
        n < stored.len(),
        agree_below(key, stored, n),
    ensures
        n < key.len(),
{
    if key.len() == n {
        let i = choose|i: int| 0 <= i < stored.len() && i < key.len() && stored[i] != key[i];
        assert(key[i] == stored[i]);
    }
}

/// Counts the bytes from `depth` on which the two keys agree.
pub fn common_prefix_len(a: &[u8], b: &[u8], depth: usize) -> (r: usize)
    requires
        depth <= a@.len(),
        depth <= b@.len(),
    ensures
        r == common_len(a@, b@, depth as int),
{
    let limit: usize = if a.len() < b.len() {
        a.len() - depth
    } else {
        b.len() - depth
    };
    let mut idx: usize = 0;
    proof {
        lemma_common_len(a@, b@, depth as int);
    }
    while idx < limit
        invariant
            idx <= limit,
            depth + limit <= usize::MAX,
            depth + limit <= a@.len(),
            depth + limit <= b@.len(),
            depth + limit == a@.len() || depth + limit == b@.len(),
            common_len(a@, b@, depth as int) == idx + common_len(a@, b@, depth + idx),
        decreases limit - idx,
    {
        if a[depth + idx] != b[depth + idx] {
            return idx;
        }
        idx += 1;
    }
    idx
}

/// Whether the two keys hold the same bytes.
pub fn keys_equal(a: &[u8], b: &[u8]) -> (r: bool)
    ensures
        r == (a@ == b@),
{
    if a.len() != b.len() {
        return false;
    }
    let mut i: usize = 0;
    while i < a.len()
        invariant
            i <= a@.len(),
            a@.len() == b@.len(),
            agree_below(a@, b@, i as int),
        decreases a@.len() - i,
    {
        if a[i] != b[i] {
            return false;
        }
        i += 1;
    }
    assert(a@ =~= b@);
    true
}

} // verus!
