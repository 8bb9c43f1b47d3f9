//! Sums of numbers.
use vstd::prelude::*;

verus! {

/// The sum of the first `n` numbers.
pub open spec fn total(v: Seq<u64>, n: int) -> int
    decreases n,
{
    if n <= 0 {
        0
    } else {
        total(v, n - 1) + v[n - 1]
    }
}

/// Sums grow.
pub proof fn lemma_total_grows(v: Seq<u64>, a: int, b: int)
    requires
        0 <= a <= b <= v.len(),
    ensures
        0 <= total(v, a) <= total(v, b),
    decreases b,
{
    if a < b {
        lemma_total_grows(v, a, b - 1);
    } else if a > 0 {
        lemma_total_grows(v, a - 1, a - 1);
    }
}

/// How a sum changes with one of its numbers.
pub proof fn lemma_total_update(v: Seq<u64>, i: int, x: u64, n: int)
    requires
        0 <= i < v.len(),
        0 <= n <= v.len(),
    ensures
        total(v.update(i, x), n) == total(v, n) + if i < n {
            x - v[i]
        } else {
            0
        },
    decreases n,
{
    if n > 0 {
        lemma_total_update(v, i, x, n - 1);
    }
}

/// The same numbers have the same sum.
pub proof fn lemma_total_prefix(a: Seq<u64>, b: Seq<u64>, n: int)
    requires
        0 <= n <= a.len(),
        n <= b.len(),
        forall|i: int| 0 <= i < n ==> #[trigger] a[i] == b[i],
    ensures
        total(a, n) == total(b, n),
    decreases n,
{
    if n > 0 {
        lemma_total_prefix(a, b, n - 1);
    }
}

/// Two of some numbers are no more than all of them.
pub proof fn lemma_total_two(v: Seq<u64>, i: int, j: int, n: int)
    requires
        0 <= i < j < n <= v.len(),
    ensures
        v[i] + v[j] <= total(v, n),
{
    lemma_total_grows(v, 0, i);
    lemma_total_grows(v, i + 1, j);
    lemma_total_grows(v, j + 1, n);
}

/// One of some numbers is no more than all of them.
pub proof fn lemma_total_one(v: Seq<u64>, i: int, n: int)
    requires
        0 <= i < n <= v.len(),
    ensures
        v[i] <= total(v, n),
{
    lemma_total_grows(v, 0, i);
    lemma_total_grows(v, i + 1, n);
}

/// Zeros have the sum zero.
pub proof fn lemma_total_zero(v: Seq<u64>, n: int)
    requires
        0 <= n <= v.len(),
        forall|i: int| 0 <= i < n ==> #[trigger] v[i] == 0,
    ensures
        total(v, n) == 0,
    decreases n,
{
    if n > 0 {
        lemma_total_zero(v, n - 1);
    }
}

} // verus!
