//! M-arrays: binary sequences of full period folded into the plane by the
//! Chinese remainder theorem, so that the plane inherits the ideal periodic
//! autocorrelation of the sequence.

use vstd::arithmetic::div_mod::*;
use vstd::arithmetic::power2::*;
use vstd::prelude::*;

use crate::grid::{lemma_cell_inside, lemma_cell_unique};
use crate::lfsr::{
    chip_at, full_period, lemma_autocorrelation, lemma_least_exists, lemma_lengths_in_use, lemma_run_periodic,
    least_primitive, m_sequence, mask_for,
};
use crate::sums::{
    lemma_all_present, lemma_sum_over_indices, lemma_sum_permuted, lemma_sum_range_congruent,
    sum_range,
};

verus! {

/// A sequence of `2^k - 1` chips folds into an array `n1` wide and `n2` high.
pub open spec fn folding(k: nat, n1: nat, n2: nat) -> bool {
    ||| k == 6 && n1 == 7 && n2 == 9
    ||| k == 8 && n1 == 15 && n2 == 17
    ||| k == 10 && n1 == 31 && n2 == 33
    ||| k == 12 && n1 == 63 && n2 == 65
}

/// The largest window that fits into one period of an array.
pub const MAX_WINDOW: usize = 63;

/// The folding in use for a window of `need` cells, up to the largest window:
/// the smallest one that is no smaller than the window.
pub open spec fn folding_of(need: nat) -> (nat, nat, nat)
    recommends
        need <= MAX_WINDOW,
{
    if need <= 7 {
        (6, 7, 9)
    } else if need <= 15 {
        (8, 15, 17)
    } else if need <= 31 {
        (10, 31, 33)
    } else {
        (12, 63, 65)
    }
}

/// The row-major cell of the array in which chip `t` lies.
pub open spec fn fold_cell(n1: nat, n2: nat, t: int) -> int {
    (t % (n2 as int)) * n1 + t % (n1 as int)
}

/// The chip that lies in column `x` and row `y` of the periodic array.
pub open spec fn fold_index(n1: nat, n2: nat, x: int, y: int) -> int {
    choose|t: int|
        0 <= t < n1 * n2 && #[trigger] (t % (n1 as int)) == x % (n1 as int) && t % (n2 as int) == y
            % (n2 as int)
}

/// The value of the periodic array in column `x` and row `y`.
pub open spec fn marray_at(k: nat, n1: nat, n2: nat, x: int, y: int) -> int {
    chip_at(k, mask_for(k), fold_index(n1, n2, x, y))
}

/// Cell `c` of the array holds a chip.
pub open spec fn holds_chip(n1: nat, n2: nat, c: int) -> bool {
    exists|t: int| 0 <= t < n1 * n2 && #[trigger] fold_cell(n1, n2, t) == c
}

/// A folding covers the whole sequence.
pub proof fn lemma_folding_area(k: nat, n1: nat, n2: nat)
    requires
        folding(k, n1, n2),
    ensures
        n1 * n2 == full_period(k),
        n1 % 2 == 1,
        n2 == n1 + 2,
        n1 > 0,
{
    lemma2_to64();
}

/// Width and height of a folding have no common divisor but 1.
pub proof fn lemma_folding_coprime(k: nat, n1: nat, n2: nat, d: nat)
    requires
        folding(k, n1, n2),
        d > 0,
        n1 % d == 0,
        n2 % d == 0,
    ensures
        d == 1,
{
    lemma_folding_area(k, n1, n2);
    let (a, b) = ((n1 / d) as int, (n2 / d) as int);
    lemma_fundamental_div_mod(n1 as int, d as int);
    lemma_fundamental_div_mod(n2 as int, d as int);
    // The divisor goes into n2 - n1, which is 2, and into n1, which is odd.
    assert(d <= 2) by (nonlinear_arith)
        requires
            d * b - d * a == 2,
            d > 0,
    ;
    if d == 2 {
        assert(n1 == 2 * a);
    }
}

/// A number is fixed below `n1 * n2` by its remainders modulo `n1` and `n2`.
pub proof fn lemma_remainders_fix(n1: nat, n2: nat, s: int, t: int)
    requires
        n1 % 2 == 1,
        n2 == n1 + 2,
        0 <= s < n1 * n2,
        0 <= t < n1 * n2,
        s % (n1 as int) == t % (n1 as int),
        s % (n2 as int) == t % (n2 as int),
    ensures
        s == t,
{
    let a = n1 as int;
    let b = n2 as int;
    let d = s - t;
    lemma_mod_equivalence(s, t, a);
    lemma_mod_equivalence(s, t, b);
    let u = d / a;
    let v = d / b;
    assert(d == a * u && d == b * v) by (nonlinear_arith)
        requires
            d % a == 0,
            d % b == 0,
            u == d / a,
            v == d / b,
            a > 0,
            b > 0,
    ;
    // b * v == (b - 2) * u, so b divides 2 * u; b is odd, so it divides u.
    let w = u - v;
    assert(2 * u == b * w) by (nonlinear_arith)
        requires
            a * u == b * v,
            a == b - 2,
            w == u - v,
    ;
    let c = b / 2;
    let h = u - c * w;
    assert(w == 2 * h) by (nonlinear_arith)
        requires
            2 * u == b * w,
            b == 2 * c + 1,
            h == u - c * w,
    ;
    assert(d == a * b * h) by (nonlinear_arith)
        requires
            d == a * u,
            2 * u == b * w,
            w == 2 * h,
    ;
    assert(h == 0) by (nonlinear_arith)
        requires
            d == a * b * h,
            -(a * b) < d < a * b,
    ;
    assert(a * b * 0 == 0) by (nonlinear_arith);
}

/// All the cells that the chips take.
spec fn fold_cells(n1: nat, n2: nat) -> Seq<int> {
    Seq::new(n1 * n2, |t: int| fold_cell(n1, n2, t))
}

/// A cell lies inside the array.
proof fn lemma_cell_range(n1: nat, n2: nat, t: int)
    requires
        n1 > 0,
        n2 > 0,
    ensures
        0 <= fold_cell(n1, n2, t) < n1 * n2,
        0 <= t % (n1 as int) < n1,
        0 <= t % (n2 as int) < n2,
{
    lemma_mod_bound(t, n1 as int);
    lemma_mod_bound(t, n2 as int);
    let x = t % (n1 as int);
    let y = t % (n2 as int);
    assert(0 <= y * n1 + x < n1 * n2) by (nonlinear_arith)
        requires
            0 <= x < n1,
            0 <= y < n2,
    ;
}

/// The cells of the chips are the cells of the array in another order.
proof fn lemma_folding_permutes(n1: nat, n2: nat)
    requires
        n1 % 2 == 1,
        n2 == n1 + 2,
    ensures
        forall|s: int, t: int|
            0 <= s < n1 * n2 && 0 <= t < n1 * n2 && #[trigger] fold_cell(n1, n2, s)
                == #[trigger] fold_cell(n1, n2, t) ==> s == t,
        forall|c: int| 0 <= c < n1 * n2 ==> #[trigger] holds_chip(n1, n2, c),
        fold_cells(n1, n2).no_duplicates(),
        forall|t: int|
            0 <= t < fold_cells(n1, n2).len() ==> 0 <= #[trigger] fold_cells(n1, n2)[t] < 0
                + fold_cells(n1, n2).len(),
{
    let cells = fold_cells(n1, n2);
    assert forall|s: int, t: int|
        0 <= s < n1 * n2 && 0 <= t < n1 * n2 && #[trigger] fold_cell(n1, n2, s)
            == #[trigger] fold_cell(n1, n2, t) implies s == t by {
        lemma_cell_range(n1, n2, s);
        lemma_cell_range(n1, n2, t);
        lemma_cell_unique(n1 as int, s % (n1 as int), s % (n2 as int));
        lemma_cell_unique(n1 as int, t % (n1 as int), t % (n2 as int));
        lemma_remainders_fix(n1, n2, s, t);
    }
    assert forall|s: int, t: int| 0 <= s < cells.len() && 0 <= t < cells.len() && s != t implies
        cells[s] != cells[t] by {
        assert(cells[s] == fold_cell(n1, n2, s) && cells[t] == fold_cell(n1, n2, t));
    }
    assert forall|t: int| 0 <= t < cells.len() implies 0 <= #[trigger] cells[t] < 0
        + cells.len() by {
        lemma_cell_range(n1, n2, t);
    }
    assert forall|c: int| 0 <= c < n1 * n2 implies #[trigger] holds_chip(n1, n2, c) by {
        lemma_all_present(cells, 0, c);
        let t = choose|t: int| 0 <= t < cells.len() && cells[t] == c;
        assert(fold_cell(n1, n2, t) == c);
    }
}

/// The folding is a bijection: each chip lies in a cell of its own, and every
/// cell holds a chip.
pub proof fn lemma_folding_bijective(n1: nat, n2: nat)
    requires
        n1 % 2 == 1,
        n2 == n1 + 2,
    ensures
        forall|s: int, t: int|
            0 <= s < n1 * n2 && 0 <= t < n1 * n2 && #[trigger] fold_cell(n1, n2, s)
                == #[trigger] fold_cell(n1, n2, t) ==> s == t,
        forall|c: int| 0 <= c < n1 * n2 ==> #[trigger] holds_chip(n1, n2, c),
{
    lemma_folding_permutes(n1, n2);
}

/// Every column and row of the periodic array holds a chip, and only one.
pub proof fn lemma_fold_index(n1: nat, n2: nat, x: int, y: int)
    requires
        n1 % 2 == 1,
        n2 == n1 + 2,
    ensures
        0 <= fold_index(n1, n2, x, y) < n1 * n2,
        fold_index(n1, n2, x, y) % (n1 as int) == x % (n1 as int),
        fold_index(n1, n2, x, y) % (n2 as int) == y % (n2 as int),
        forall|t: int|
            0 <= t < n1 * n2 && #[trigger] (t % (n1 as int)) == x % (n1 as int) && t % (n2 as int)
                == y % (n2 as int) ==> t == fold_index(n1, n2, x, y),
{
    let a = x % (n1 as int);
    let b = y % (n2 as int);
    lemma_folding_bijective(n1, n2);
    lemma_mod_bound(x, n1 as int);
    lemma_mod_bound(y, n2 as int);
    let c = b * n1 + a;
    assert(0 <= c < n1 * n2) by (nonlinear_arith)
        requires
            0 <= a < n1,
            0 <= b < n2,
            c == b * n1 + a,
    ;
    assert(holds_chip(n1, n2, c));
    let t = choose|t: int| 0 <= t < n1 * n2 && #[trigger] fold_cell(n1, n2, t) == c;
    lemma_cell_range(n1, n2, t);
    lemma_cell_unique(n1 as int, a, b);
    lemma_cell_unique(n1 as int, t % (n1 as int), t % (n2 as int));
    assert(t % (n1 as int) == a && t % (n2 as int) == b);
    let f = fold_index(n1, n2, x, y);
    assert(f % (n1 as int) == a);
    assert forall|t: int|
        0 <= t < n1 * n2 && #[trigger] (t % (n1 as int)) == x % (n1 as int) && t % (n2 as int) == y
            % (n2 as int) implies t == f by {
        lemma_remainders_fix(n1, n2, t, f);
    }
}

/// Shifting the array shifts the chip index.
proof fn lemma_fold_shift(n1: nat, n2: nat, x: int, y: int, dx: int, dy: int)
    requires
        n1 % 2 == 1,
        n2 == n1 + 2,
    ensures
        fold_index(n1, n2, x + dx, y + dy) == (fold_index(n1, n2, x, y) + fold_index(
            n1,
            n2,
            dx,
            dy,
        )) % (n1 * n2) as int,
{
    let s = fold_index(n1, n2, x, y);
    let d = fold_index(n1, n2, dx, dy);
    let a = n1 as int;
    let b = n2 as int;
    lemma_fold_index(n1, n2, x, y);
    lemma_fold_index(n1, n2, dx, dy);
    lemma_fold_index(n1, n2, x + dx, y + dy);
    assert(a * b > 0) by (nonlinear_arith)
        requires
            a > 0,
            b > 0,
    ;
    let t = (s + d) % (a * b);
    lemma_mod_bound(s + d, a * b);
    lemma_mod_mod(s + d, a, b);
    assert(a * b == b * a) by (nonlinear_arith);
    lemma_mod_mod(s + d, b, a);
    assert(t % a == (s + d) % a && t % b == (s + d) % b);
    lemma_add_mod_noop(s, d, a);
    lemma_add_mod_noop(x, dx, a);
    lemma_add_mod_noop(s, d, b);
    lemma_add_mod_noop(y, dy, b);
    assert(t % a == (x + dx) % a);
}

/// The array repeats itself with its width and height.
pub proof fn lemma_marray_periodic(k: nat, n1: nat, n2: nat, x: int, y: int)
    requires
        n1 % 2 == 1,
        n2 == n1 + 2,
    ensures
        marray_at(k, n1, n2, x, y) == marray_at(k, n1, n2, x % (n1 as int), y % (n2 as int)),
{
    lemma_fold_index(n1, n2, x, y);
    lemma_fold_index(n1, n2, x % (n1 as int), y % (n2 as int));
    lemma_mod_twice(x, n1 as int);
    lemma_mod_twice(y, n2 as int);
}

/// The periodic autocorrelation of the array is ideal: at every shift but
/// the zero one it is -1.
pub proof fn lemma_marray_autocorrelation(k: nat, n1: nat, n2: nat, dx: int, dy: int)
    requires
        folding(k, n1, n2),
        0 <= dx < n1,
        0 <= dy < n2,
        dx != 0 || dy != 0,
    ensures
        sum_range(
            0,
            n1 * n2,
            |c: int|
                marray_at(k, n1, n2, c % (n1 as int), c / (n1 as int)) * marray_at(
                    k,
                    n1,
                    n2,
                    c % (n1 as int) + dx,
                    c / (n1 as int) + dy,
                ),
        ) == -1,
{
    lemma_folding_area(k, n1, n2);
    let taps = mask_for(k);
    lemma_least_mask(k);
    let p = n1 * n2;
    let a = n1 as int;
    let d = fold_index(n1, n2, dx, dy);
    lemma_fold_index(n1, n2, dx, dy);
    lemma_small_mod(dx as nat, n1);
    lemma_small_mod(dy as nat, n2);
    if d == 0 {
        lemma_small_mod(0, n1);
        lemma_small_mod(0, n2);
    }
    let f = |c: int|
        marray_at(k, n1, n2, c % a, c / a) * marray_at(k, n1, n2, c % a + dx, c / a + dy);
    let g = |t: int| chip_at(k, taps, t) * chip_at(k, taps, t + d);
    let cells = fold_cells(n1, n2);
    lemma_folding_permutes(n1, n2);
    lemma_sum_permuted(cells, 0, f);
    lemma_sum_over_indices(cells, f);
    let by_chip = |t: int| f(cells[t]);
    assert forall|t: int| 0 <= t < p implies #[trigger] by_chip(t) == g(t) by {
        let x = t % a;
        let y = t % (n2 as int);
        lemma_cell_range(n1, n2, t);
        lemma_cell_unique(a, x, y);
        lemma_fold_index(n1, n2, x, y);
        lemma_mod_twice(t, a);
        lemma_mod_twice(t, n2 as int);
        assert(t % (n1 as int) == x % (n1 as int));
        assert(fold_index(n1, n2, x, y) == t);
        lemma_fold_shift(n1, n2, x, y, dx, dy);
        let turns = (t + d) / (p as int);
        lemma_fundamental_div_mod(t + d, p as int);
        lemma_mod_bound(t + d, p as int);
        lemma_div_pos_is_pos(t + d, p as int);
        let r = ((t + d) % (p as int)) as nat;
        assert((t + d) as nat == turns as nat * p + r) by (nonlinear_arith)
            requires
                t + d == (p as int) * turns + r,
                turns >= 0,
                t + d >= 0,
        ;
        lemma_run_periodic(k, taps, p, turns as nat, r);
    }
    lemma_sum_range_congruent(0, p, by_chip, g);
    lemma_autocorrelation(k, taps, d as nat);
    lemma_sum_range_congruent(0, p, g, |t: int| chip_at(k, taps, t) * chip_at(k, taps, t + d as nat));
}

/// The mask in use has full period.
proof fn lemma_least_mask(k: nat)
    requires
        k == 6 || k == 8 || k == 10 || k == 12,
    ensures
        least_primitive(k, mask_for(k)),
{
    lemma_lengths_in_use(k);
    lemma_least_exists(k);
}

/// Register length, width and height of the array for a window of `need` cells.
///
/// The window is no larger than one period of the array, so that it holds no
/// copy of a part of itself, and no shorter register would do.
pub fn folding_for(need: usize) -> (r: (usize, usize, usize))
    requires
        need <= MAX_WINDOW,
    ensures
        (r.0 as nat, r.1 as nat, r.2 as nat) == folding_of(need as nat),
        folding(r.0 as nat, r.1 as nat, r.2 as nat),
        r.1 >= need && r.2 >= need,
        forall|k: nat, n1: nat, n2: nat|
            k < r.0 && #[trigger] folding(k, n1, n2) ==> n1 < need,
{
    if need <= 7 {
        (6, 7, 9)
    } else if need <= 15 {
        (8, 15, 17)
    } else if need <= 31 {
        (10, 31, 33)
    } else {
        (12, 63, 65)
    }
}

/// One period of the array, row by row.
fn fold_sequence(k: usize, n1: usize, n2: usize) -> (arr: Vec<i8>)
    requires
        folding(k as nat, n1 as nat, n2 as nat),
    ensures
        arr@.len() == n1 * n2,
        forall|c: int|
            0 <= c < n1 * n2 ==> #[trigger] arr@[c] == marray_at(
                k as nat,
                n1 as nat,
                n2 as nat,
                c % (n1 as int),
                c / (n1 as int),
            ),
{
    let ghost (gk, g1, g2) = (k as nat, n1 as nat, n2 as nat);
    proof {
        lemma_folding_area(gk, g1, g2);
        lemma_folding_permutes(g1, g2);
    }
    let s: Vec<i8> = m_sequence(k);
    let len: usize = s.len();
    let mut arr: Vec<i8> = vec![0i8; len];
    let mut t: usize = 0;
    while t < len
        invariant
            folding(gk, g1, g2),
            gk == k,
            g1 == n1,
            g2 == n2,
            len == g1 * g2,
            s@.len() == len,
            arr@.len() == len,
            t <= len,
            forall|a: int, b: int|
                0 <= a < g1 * g2 && 0 <= b < g1 * g2 && #[trigger] fold_cell(g1, g2, a)
                    == #[trigger] fold_cell(g1, g2, b) ==> a == b,
            forall|j: int| 0 <= j < t ==> arr@[#[trigger] fold_cell(g1, g2, j)] == s@[j],
        decreases len - t,
    {
        proof {
            lemma_cell_range(g1, g2, t as int);
            assert forall|j: int| 0 <= j < t implies 0 <= #[trigger] fold_cell(g1, g2, j) < len by {
                lemma_cell_range(g1, g2, j);
            }
        }
        assert((t % n2) * n1 + t % n1 == fold_cell(g1, g2, t as int));
        let c: usize = (t % n2) * n1 + t % n1;
        arr.set(c, s[t]);
        t = t + 1;
    }
    proof {
        assert forall|c: int| 0 <= c < n1 * n2 implies #[trigger] arr@[c] == marray_at(
            gk,
            g1,
            g2,
            c % (n1 as int),
            c / (n1 as int),
        ) by {
            assert(holds_chip(g1, g2, c));
            let t = choose|t: int| 0 <= t < g1 * g2 && #[trigger] fold_cell(g1, g2, t) == c;
            let x = t % (n1 as int);
            let y = t % (n2 as int);
            lemma_cell_range(g1, g2, t);
            lemma_cell_unique(n1 as int, x, y);
            lemma_fold_index(g1, g2, x, y);
            lemma_mod_twice(t, n1 as int);
            lemma_mod_twice(t, n2 as int);
            assert(t % (n1 as int) == x % (n1 as int));
        }
    }
    arr
}

/// The window of `n` by `n` cells of the periodic array, row by row.
pub fn marray_cells(n: usize) -> (out: Vec<i8>)
    requires
        n <= MAX_WINDOW,
    ensures
        out@.len() == n * n,
        ({
            let (k, n1, n2) = folding_of(n as nat);
            forall|c: int|
                0 <= c < n * n ==> #[trigger] out@[c] == marray_at(
                    k,
                    n1,
                    n2,
                    c % (n as int),
                    c / (n as int),
                )
        }),
        ({
            let (k, n1, n2) = folding_of(n as nat);
            forall|t: int|
                0 <= t < n1 * n2 && t % (n1 as int) < n && t % (n2 as int) < n ==> out@[(t % (
                n2 as int)) * n + t % (n1 as int)] == #[trigger] chip_at(k, mask_for(k), t)
        }),
{
    assert(n * n <= 63 * 63) by (nonlinear_arith)
        requires
            n <= 63,
    ;
    let (k, n1, n2) = folding_for(n);
    let arr: Vec<i8> = fold_sequence(k, n1, n2);
    let mut out: Vec<i8> = Vec::new();
    let mut i: usize = 0;
    while i < n * n
        invariant
            folding(k as nat, n1 as nat, n2 as nat),
            n * n <= usize::MAX,
            i <= n * n,
            n > 0 || i == n * n,
            arr@.len() == n1 * n2,
            forall|c: int|
                0 <= c < n1 * n2 ==> #[trigger] arr@[c] == marray_at(
                    k as nat,
                    n1 as nat,
                    n2 as nat,
                    c % (n1 as int),
                    c / (n1 as int),
                ),
            out@.len() == i,
            forall|c: int|
                0 <= c < i ==> #[trigger] out@[c] == marray_at(
                    k as nat,
                    n1 as nat,
                    n2 as nat,
                    c % (n as int),
                    c / (n as int),
                ),
        decreases n * n - i,
    {
        let x: usize = i % n;
        let y: usize = i / n;
        let a: usize = x % n1;
        let b: usize = y % n2;
        proof {
            assert(0 <= b * n1 + a < n1 * n2) by (nonlinear_arith)
                requires
                    0 <= a < n1,
                    0 <= b < n2,
            ;
            lemma_folding_area(k as nat, n1 as nat, n2 as nat);
            lemma_marray_periodic(k as nat, n1 as nat, n2 as nat, x as int, y as int);
            lemma_cell_unique(n1 as int, a as int, b as int);
        }
        out.push(arr[b * n1 + a]);
        i = i + 1;
    }
    proof {
        let (gk, g1, g2) = folding_of(n as nat);
        assert forall|t: int|
            0 <= t < g1 * g2 && t % (g1 as int) < n && t % (g2 as int) < n implies out@[(t % (
        g2 as int)) * n + t % (g1 as int)] == #[trigger] chip_at(gk, mask_for(gk), t) by {
            let x = t % (g1 as int);
            let y = t % (g2 as int);
            lemma_mod_bound(t, g1 as int);
            lemma_mod_bound(t, g2 as int);
            lemma_cell_inside(n as int, n as int, x, y);
            lemma_cell_unique(n as int, x, y);
            lemma_diagonal_chips(gk, g1, g2, t);
        }
    }
    out
}

/// A walk one column to the right and one row down at a time meets the chips
/// in their own order: chip `t` lies in column `t % n1` and row `t % n2`.
pub proof fn lemma_diagonal_chips(k: nat, n1: nat, n2: nat, t: int)
    requires
        n1 % 2 == 1,
        n2 == n1 + 2,
        0 <= t < n1 * n2,
    ensures
        marray_at(k, n1, n2, t % (n1 as int), t % (n2 as int)) == chip_at(k, mask_for(k), t),
        marray_at(k, n1, n2, t, t) == chip_at(k, mask_for(k), t),
{
    let x = t % (n1 as int);
    let y = t % (n2 as int);
    lemma_fold_index(n1, n2, x, y);
    lemma_mod_twice(t, n1 as int);
    lemma_mod_twice(t, n2 as int);
    assert(t % (n1 as int) == x % (n1 as int));
    lemma_fold_index(n1, n2, t, t);
}

} // verus!
