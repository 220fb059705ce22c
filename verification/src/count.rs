//! Counting the indices below a bound at which a predicate holds.

use vstd::prelude::*;

verus! {

/// The number of indices `i` with `0 <= i < n` at which `f` holds.
pub open spec fn count_below(f: spec_fn(int) -> bool, n: int) -> nat
    decreases n,
{
    if n <= 0 {
        0
    } else {
        count_below(f, n - 1) + if f(n - 1) {
            1nat
        } else {
            0nat
        }
    }
}

/// A count never exceeds its bound, and grows with the bound.
pub proof fn lemma_count_bound(f: spec_fn(int) -> bool, m: int, n: int)
    requires
        0 <= m <= n,
    ensures
        count_below(f, m) <= m,
        count_below(f, m) <= count_below(f, n),
        count_below(f, n) - count_below(f, m) <= n - m,
    decreases n,
{
    if m > 0 {
        lemma_count_bound(f, m - 1, m - 1);
    }
    if m < n {
        lemma_count_bound(f, m, n - 1);
    }
}

/// Two predicates that agree below the bound have the same count.
pub proof fn lemma_count_same(f: spec_fn(int) -> bool, g: spec_fn(int) -> bool, n: int)
    requires
        forall|i: int| 0 <= i < n ==> #[trigger] f(i) == g(i),
    ensures
        count_below(f, n) == count_below(g, n),
    decreases n,
{
    if n > 0 {
        lemma_count_same(f, g, n - 1);
    }
}

/// Turning the predicate on at one index adds one to the count.
pub proof fn lemma_count_set(f: spec_fn(int) -> bool, g: spec_fn(int) -> bool, n: int, j: int)
    requires
        0 <= j < n,
        !f(j),
        g(j),
        forall|i: int| 0 <= i < n && i != j ==> #[trigger] f(i) == g(i),
    ensures
        count_below(g, n) == count_below(f, n) + 1,
    decreases n,
{
    if n - 1 == j {
        lemma_count_same(f, g, n - 1);
    } else {
        lemma_count_set(f, g, n - 1, j);
    }
}

/// A predicate that holds everywhere below the bound is counted at every index.
pub proof fn lemma_count_all(f: spec_fn(int) -> bool, n: int)
    requires
        0 <= n,
        forall|i: int| 0 <= i < n ==> #[trigger] f(i),
    ensures
        count_below(f, n) == n,
    decreases n,
{
    if n > 0 {
        lemma_count_all(f, n - 1);
    }
}

/// A count that reaches its bound leaves no index out.
pub proof fn lemma_count_full(f: spec_fn(int) -> bool, n: int)
    requires
        0 <= n,
        count_below(f, n) == n,
    ensures
        forall|i: int| 0 <= i < n ==> #[trigger] f(i),
    decreases n,
{
    if n > 0 {
        lemma_count_bound(f, n - 1, n - 1);
        lemma_count_full(f, n - 1);
    }
}

/// A predicate that holds nowhere below the bound is counted nowhere.
pub proof fn lemma_count_none(f: spec_fn(int) -> bool, n: int)
    requires
        forall|i: int| 0 <= i < n ==> !#[trigger] f(i),
    ensures
        count_below(f, n) == 0,
    decreases n,
{
    if n > 0 {
        lemma_count_none(f, n - 1);
    }
}

/// Indices at which the predicate fails add nothing to the count.
pub proof fn lemma_count_tail(f: spec_fn(int) -> bool, m: int, n: int)
    requires
        0 <= m <= n,
        forall|i: int| m <= i < n ==> !#[trigger] f(i),
    ensures
        count_below(f, n) == count_below(f, m),
    decreases n,
{
    if m < n {
        lemma_count_tail(f, m, n - 1);
    }
}

/// Turning the predicate off at one index takes one from the count.
pub proof fn lemma_count_clear(f: spec_fn(int) -> bool, g: spec_fn(int) -> bool, n: int, j: int)
    requires
        0 <= j < n,
        f(j),
        !g(j),
        forall|i: int| 0 <= i < n && i != j ==> #[trigger] f(i) == g(i),
    ensures
        count_below(g, n) + 1 == count_below(f, n),
{
    lemma_count_set(g, f, n, j);
}

/// A positive count has an index at which the predicate holds.
pub proof fn lemma_count_some(f: spec_fn(int) -> bool, n: int)
    requires
        count_below(f, n) > 0,
    ensures
        exists|i: int| 0 <= i < n && #[trigger] f(i),
{
    if forall|i: int| 0 <= i < n ==> !#[trigger] f(i) {
        lemma_count_none(f, n);
    }
}

/// A count of two or more has two indices at which the predicate holds.
pub proof fn lemma_count_two(f: spec_fn(int) -> bool, n: int)
    requires
        count_below(f, n) >= 2,
    ensures
        exists|i: int, j: int| 0 <= i < j < n && #[trigger] f(i) && #[trigger] f(j),
    decreases n,
{
    if n > 0 {
        if f(n - 1) {
            lemma_count_some(f, n - 1);
            let i = choose|i: int| 0 <= i < n - 1 && #[trigger] f(i);
            assert(0 <= i < n - 1 < n && f(i) && f(n - 1));
        } else {
            lemma_count_two(f, n - 1);
            let (i, j) = choose|i: int, j: int| 0 <= i < j < n - 1 && #[trigger] f(i) && #[trigger] f(j);
            assert(0 <= i < j < n && f(i) && f(j));
        }
    }
}

} // verus!
