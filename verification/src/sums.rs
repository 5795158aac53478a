//! Finite sums, and their independence of the order of the terms.

use vstd::prelude::*;

verus! {

/// `f(lo) + f(lo + 1) + ...`, `n` terms.
pub open spec fn sum_range(lo: int, n: nat, f: spec_fn(int) -> int) -> int
    decreases n,
{
    if n == 0 {
        0
    } else {
        sum_range(lo, (n - 1) as nat, f) + f(lo + n - 1)
    }
}

/// The sum of `f` over the entries of `s`.
pub open spec fn sum_over(s: Seq<int>, f: spec_fn(int) -> int) -> int
    decreases s.len(),
{
    if s.len() == 0 {
        0
    } else {
        sum_over(s.drop_last(), f) + f(s.last())
    }
}

/// Sums with equal terms are equal.
pub proof fn lemma_sum_range_congruent(lo: int, n: nat, f: spec_fn(int) -> int, g: spec_fn(int) -> int)
    requires
        forall|i: int| lo <= i < lo + n ==> #[trigger] f(i) == g(i),
    ensures
        sum_range(lo, n, f) == sum_range(lo, n, g),
    decreases n,
{
    if n > 0 {
        lemma_sum_range_congruent(lo, (n - 1) as nat, f, g);
    }
}

/// Negating the terms negates the sum.
pub proof fn lemma_sum_range_negated(lo: int, n: nat, f: spec_fn(int) -> int)
    ensures
        sum_range(lo, n, |i: int| -f(i)) == -sum_range(lo, n, f),
    decreases n,
{
    if n > 0 {
        lemma_sum_range_negated(lo, (n - 1) as nat, f);
    }
}

/// A sum of small terms stays below the sum of larger ones.
pub proof fn lemma_sum_below(n: nat, f: spec_fn(int) -> int, g: spec_fn(int) -> int)
    requires
        forall|i: int| 0 <= i < n ==> 0 <= #[trigger] f(i) <= g(i),
    ensures
        0 <= sum_range(0, n, f) <= sum_range(0, n, g),
    decreases n,
{
    if n > 0 {
        lemma_sum_below((n - 1) as nat, f, g);
    }
}

/// The first terms of a sum of terms that are not negative stay below the whole.
pub proof fn lemma_sum_prefix(m: nat, n: nat, f: spec_fn(int) -> int)
    requires
        m <= n,
        forall|i: int| 0 <= i < n ==> 0 <= #[trigger] f(i),
    ensures
        sum_range(0, m, f) <= sum_range(0, n, f),
    decreases n,
{
    if m < n {
        lemma_sum_prefix(m, (n - 1) as nat, f);
    }
}

/// A sum of zeros is zero.
pub proof fn lemma_sum_zero(lo: int, n: nat, f: spec_fn(int) -> int)
    requires
        forall|i: int| lo <= i < lo + n ==> #[trigger] f(i) == 0,
    ensures
        sum_range(lo, n, f) == 0,
    decreases n,
{
    if n > 0 {
        lemma_sum_zero(lo, (n - 1) as nat, f);
    }
}

/// A sum is the sum of its first terms and of the others.
pub proof fn lemma_sum_split(lo: int, m: nat, n: nat, f: spec_fn(int) -> int)
    ensures
        sum_range(lo, m + n, f) == sum_range(lo, m, f) + sum_range(lo + m, n, f),
    decreases n,
{
    if n > 0 {
        lemma_sum_split(lo, m, (n - 1) as nat, f);
        assert((m + n - 1) as nat == m + (n - 1) as nat);
    }
}

/// Summing over a sequence is summing over its indices.
pub proof fn lemma_sum_over_indices(s: Seq<int>, f: spec_fn(int) -> int)
    ensures
        sum_over(s, f) == sum_range(0, s.len(), |i: int| f(s[i])),
    decreases s.len(),
{
    if s.len() > 0 {
        lemma_sum_over_indices(s.drop_last(), f);
        lemma_sum_range_congruent(
            0,
            (s.len() - 1) as nat,
            |i: int| f(s.drop_last()[i]),
            |i: int| f(s[i]),
        );
    }
}

/// Taking out one entry takes its term out of the sum.
proof fn lemma_sum_over_remove(s: Seq<int>, f: spec_fn(int) -> int, j: int)
    requires
        0 <= j < s.len(),
    ensures
        sum_over(s, f) == sum_over(s.remove(j), f) + f(s[j]),
    decreases s.len(),
{
    if j == s.len() - 1 {
        assert(s.remove(j) =~= s.drop_last());
    } else {
        lemma_sum_over_remove(s.drop_last(), f, j);
        assert(s.remove(j).drop_last() =~= s.drop_last().remove(j));
        assert(s.remove(j).last() == s.last());
    }
}

/// `n` different numbers below `lo + n` and not below `lo` hold each of them.
pub proof fn lemma_all_present(s: Seq<int>, lo: int, v: int)
    requires
        s.no_duplicates(),
        forall|i: int| 0 <= i < s.len() ==> lo <= #[trigger] s[i] < lo + s.len(),
        lo <= v < lo + s.len(),
    ensures
        s.contains(v),
{
    let range = vstd::set_lib::set_int_range(lo, lo + s.len());
    vstd::set_lib::lemma_int_range(lo, lo + s.len());
    s.unique_seq_to_set();
    assert(s.to_set().subset_of(range)) by {
        assert forall|x: int| s.to_set().contains(x) implies range.contains(x) by {
            let i = choose|i: int| 0 <= i < s.len() && s[i] == x;
            assert(lo <= s[i] < lo + s.len());
        }
    }
    vstd::set_lib::lemma_subset_equality(s.to_set(), range);
    assert(range.contains(v));
}

/// A sum over all the numbers of a range does not depend on their order.
pub proof fn lemma_sum_permuted(s: Seq<int>, lo: int, f: spec_fn(int) -> int)
    requires
        s.no_duplicates(),
        forall|i: int| 0 <= i < s.len() ==> lo <= #[trigger] s[i] < lo + s.len(),
    ensures
        sum_over(s, f) == sum_range(lo, s.len(), f),
    decreases s.len(),
{
    if s.len() > 0 {
        let top = lo + s.len() - 1;
        lemma_all_present(s, lo, top);
        let j = choose|j: int| 0 <= j < s.len() && s[j] == top;
        let r = s.remove(j);
        lemma_sum_over_remove(s, f, j);
        assert forall|a: int, b: int| 0 <= a < r.len() && 0 <= b < r.len() && a != b implies r[a]
            != r[b] by {
            let a2 = if a < j { a } else { a + 1 };
            let b2 = if b < j { b } else { b + 1 };
            assert(s[a2] != s[b2]);
        }
        assert forall|i: int| 0 <= i < r.len() implies lo <= #[trigger] r[i] < lo + r.len() by {
            let i2 = if i < j { i } else { i + 1 };
            assert(lo <= s[i2] < lo + s.len());
            assert(s[i2] != s[j]);
        }
        lemma_sum_permuted(r, lo, f);
    }
}

/// Moving the index by one moves the range.
pub proof fn lemma_sum_shift(lo: int, n: nat, f: spec_fn(int) -> int, g: spec_fn(int) -> int)
    requires
        forall|i: int| lo <= i < lo + n ==> #[trigger] g(i) == f(i + 1),
    ensures
        sum_range(lo, n, g) == sum_range(lo + 1, n, f),
    decreases n,
{
    if n > 0 {
        lemma_sum_shift(lo, (n - 1) as nat, f, g);
        assert(g(lo + n - 1) == f(lo + n - 1 + 1));
    }
}

/// A sum with one term that is not zero is that term.
pub proof fn lemma_sum_single(lo: int, n: nat, f: spec_fn(int) -> int, k: int)
    requires
        lo <= k < lo + n,
        forall|i: int| lo <= i < lo + n && i != k ==> #[trigger] f(i) == 0,
    ensures
        sum_range(lo, n, f) == f(k),
    decreases n,
{
    if k == lo + n - 1 {
        lemma_sum_zero(lo, (n - 1) as nat, f);
    } else {
        lemma_sum_single(lo, (n - 1) as nat, f, k);
    }
}

/// The sum of two sums over one range is the sum of the sums of their terms.
pub proof fn lemma_sum_plus(
    lo: int,
    n: nat,
    f: spec_fn(int) -> int,
    g: spec_fn(int) -> int,
    h: spec_fn(int) -> int,
)
    requires
        forall|i: int| lo <= i < lo + n ==> #[trigger] h(i) == f(i) + g(i),
    ensures
        sum_range(lo, n, h) == sum_range(lo, n, f) + sum_range(lo, n, g),
    decreases n,
{
    if n > 0 {
        lemma_sum_plus(lo, (n - 1) as nat, f, g, h);
        assert(h(lo + n - 1) == f(lo + n - 1) + g(lo + n - 1));
    }
}

/// Changing one term changes the sum by as much.
pub proof fn lemma_sum_changed(
    lo: int,
    n: nat,
    f: spec_fn(int) -> int,
    g: spec_fn(int) -> int,
    k: int,
)
    requires
        lo <= k < lo + n,
        forall|i: int| lo <= i < lo + n && i != k ==> #[trigger] f(i) == g(i),
    ensures
        sum_range(lo, n, f) - sum_range(lo, n, g) == f(k) - g(k),
    decreases n,
{
    if k == lo + n - 1 {
        lemma_sum_range_congruent(lo, (n - 1) as nat, f, g);
    } else {
        lemma_sum_changed(lo, (n - 1) as nat, f, g, k);
        assert(f(lo + n - 1) == g(lo + n - 1));
    }
}

/// A sum of terms that are not negative is zero only if they all are.
pub proof fn lemma_sum_positive(lo: int, n: nat, f: spec_fn(int) -> int)
    requires
        forall|i: int| lo <= i < lo + n ==> #[trigger] f(i) >= 0,
    ensures
        sum_range(lo, n, f) >= 0,
        sum_range(lo, n, f) == 0 <==> forall|i: int| lo <= i < lo + n ==> #[trigger] f(i) == 0,
    decreases n,
{
    if n > 0 {
        lemma_sum_positive(lo, (n - 1) as nat, f);
        let last = lo + n - 1;
        assert(f(last) >= 0);
        if sum_range(lo, n, f) == 0 {
            assert(f(last) == 0);
            assert forall|i: int| lo <= i < lo + n implies #[trigger] f(i) == 0 by {
                if i != last {
                    assert(lo <= i < lo + (n - 1) as nat);
                }
            }
        }
    }
}

} // verus!
