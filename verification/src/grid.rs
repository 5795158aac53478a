//! Rectangular arrays stored row by row: cell `c` of an array `w` wide lies in
//! column `c % w` and row `c / w`.

use vstd::arithmetic::div_mod::*;
use vstd::prelude::*;

verus! {

/// The nearest index to `i` in an array of `n`.
pub open spec fn clamped(i: int, n: int) -> int {
    if i < 0 {
        0
    } else if i >= n {
        n - 1
    } else {
        i
    }
}

/// Column and row of a cell are determined by the cell.
pub proof fn lemma_cell_unique(w: int, x: int, y: int)
    requires
        0 <= x < w,
    ensures
        (y * w + x) % w == x,
        (y * w + x) / w == y,
{
    lemma_fundamental_div_mod_converse(y * w + x, w, y, x);
}

/// The cell in a column and a row of the array lies in the array.
pub proof fn lemma_cell_inside(w: int, h: int, x: int, y: int)
    requires
        0 <= x < w,
        0 <= y < h,
    ensures
        0 <= y * w + x < w * h,
        0 <= y * w <= y * w + x,
        y * w + w <= w * h,
{
    assert(0 <= y * w + x < w * h && y * w >= 0 && y * w + w <= w * h) by (nonlinear_arith)
        requires
            0 <= x < w,
            0 <= y < h,
    ;
}

/// A cell of the array has a column and a row of the array.
pub proof fn lemma_cell_split(w: int, h: int, c: int)
    requires
        0 <= c < w * h,
        0 <= w,
    ensures
        w > 0,
        0 <= c % w < w,
        0 <= c / w < h,
        (c / w) * w + c % w == c,
{
    assert(w > 0) by (nonlinear_arith)
        requires
            0 <= c < w * h,
            0 <= w,
    ;
    lemma_fundamental_div_mod(c, w);
    lemma_mod_bound(c, w);
    let q = c / w;
    assert(0 <= q < h && q * w + c % w == c) by (nonlinear_arith)
        requires
            c == w * q + c % w,
            0 <= c % w < w,
            0 <= c < w * h,
    ;
}

/// Index `i` moved to the nearest index of an array of `n`.
pub fn clamp_idx(i: isize, n: usize) -> (r: usize)
    requires
        1 <= n <= isize::MAX,
    ensures
        r == clamped(i as int, n as int),
        r < n,
{
    if i < 0 {
        0
    } else if i as usize >= n {
        n - 1
    } else {
        i as usize
    }
}

/// Where a filter of `taps` places, centred on `x`, reads in a line of `n`
/// entries; past the ends it reads the end again.
pub fn tap_indices(x: usize, n: usize, taps: usize) -> (r: Vec<usize>)
    requires
        x < n,
        n + taps <= isize::MAX,
    ensures
        r@.len() == taps,
        forall|k: int|
            0 <= k < taps ==> #[trigger] r@[k] == clamped(x + k - taps as int / 2, n as int),
{
    let radius: isize = (taps / 2) as isize;
    let mut r: Vec<usize> = Vec::new();
    let mut k: usize = 0;
    while k < taps
        invariant
            x < n,
            n + taps <= isize::MAX,
            radius == taps as int / 2,
            k <= taps,
            r@.len() == k,
            forall|j: int|
                0 <= j < k ==> #[trigger] r@[j] == clamped(x + j - taps as int / 2, n as int),
        decreases taps - k,
    {
        r.push(clamp_idx(x as isize + k as isize - radius, n));
        k = k + 1;
    }
    r
}

/// An array of `h` columns and `w` rows is the transpose of one of `w` columns and `h` rows.
pub open spec fn is_transpose<T>(dst: Seq<T>, src: Seq<T>, w: int, h: int) -> bool {
    &&& dst.len() == src.len()
    &&& forall|d: int| 0 <= d < dst.len() ==> #[trigger] dst[d] == src[(d % h) * w + d / h]
}

/// Transposing twice gives the array back.
pub proof fn lemma_transpose_involution<T>(a: Seq<T>, b: Seq<T>, c: Seq<T>, w: int, h: int)
    requires
        0 <= w,
        0 <= h,
        a.len() == w * h,
        is_transpose(b, a, w, h),
        is_transpose(c, b, h, w),
    ensures
        c == a,
{
    assert(w * h == h * w) by (nonlinear_arith);
    assert forall|i: int| 0 <= i < a.len() implies c[i] == a[i] by {
        lemma_cell_split(w, h, i);
        let x = i % w;
        let y = i / w;
        lemma_cell_inside(h, w, y, x);
        lemma_cell_unique(h, y, x);
        assert(c[i] == b[x * h + y]);
    }
    assert(c =~= a);
}

/// Writes the transpose of `src`, an array `w` wide and `h` high, into `dst`,
/// block by block so that both arrays are read in runs.
pub fn transpose<T: Copy>(src: &Vec<T>, w: usize, h: usize, dst: &mut Vec<T>)
    requires
        src@.len() == w * h,
        old(dst)@.len() == w * h,
        w * h <= usize::MAX,
    ensures
        is_transpose(final(dst)@, src@, w as int, h as int),
{
    let block: usize = 32;
    let mut y0: usize = 0;
    while y0 < h
        invariant
            block == 32,
            src@.len() == w * h,
            dst@.len() == w * h,
            w * h <= usize::MAX,
            y0 <= h,
            forall|d: int|
                0 <= d < w * h && d % (h as int) < y0 ==> #[trigger] dst@[d] == src@[(d % (h as int))
                    * w + d / (h as int)],
        decreases h - y0,
    {
        let y1: usize = if h - y0 > block { y0 + block } else { h };
        let mut x0: usize = 0;
        while x0 < w
            invariant
                block == 32,
                src@.len() == w * h,
                dst@.len() == w * h,
                w * h <= usize::MAX,
                y0 < y1 <= h,
                x0 <= w,
                forall|d: int|
                    0 <= d < w * h && (d % (h as int) < y0 || d % (h as int) < y1 && d / (h as int)
                        < x0) ==> #[trigger] dst@[d] == src@[(d % (h as int)) * w + d / (h as int)],
            decreases w - x0,
        {
            let x1: usize = if w - x0 > block { x0 + block } else { w };
            let mut y: usize = y0;
            while y < y1
                invariant
                    block == 32,
                    src@.len() == w * h,
                    dst@.len() == w * h,
                    w * h <= usize::MAX,
                    y0 <= y <= y1 <= h,
                    x0 < x1 <= w,
                    forall|d: int|
                        0 <= d < w * h && (d % (h as int) < y0 || d % (h as int) < y1 && d / (h as int)
                            < x0 || d % (h as int) < y && d / (h as int) < x1)
                            ==> #[trigger] dst@[d] == src@[(d % (h as int)) * w + d / (h as int)],
                decreases y1 - y,
            {
                let mut x: usize = x0;
                while x < x1
                    invariant
                        src@.len() == w * h,
                        dst@.len() == w * h,
                        w * h <= usize::MAX,
                        y0 <= y < y1 <= h,
                        x0 <= x <= x1 <= w,
                        forall|d: int|
                            0 <= d < w * h && (d % (h as int) < y0 || d % (h as int) < y1 && d / (
                            h as int) < x0 || d % (h as int) < y && d / (h as int) < x1 || d % (
                            h as int) == y && d / (h as int) < x) ==> #[trigger] dst@[d] == src@[(d
                                % (h as int)) * w + d / (h as int)],
                    decreases x1 - x,
                {
                    proof {
                        lemma_cell_inside(w as int, h as int, x as int, y as int);
                        lemma_cell_inside(h as int, w as int, y as int, x as int);
                        lemma_cell_unique(h as int, y as int, x as int);
                        assert(w * h == h * w) by (nonlinear_arith);
                        assert forall|d: int|
                            #![trigger dst@[d]]
                            0 <= d < w * h && d % (h as int) == y && d / (h as int) == x implies d
                            == x * h + y by {
                            lemma_cell_split(h as int, w as int, d);
                        }
                    }
                    dst.set(x * h + y, src[y * w + x]);
                    x = x + 1;
                }
                y = y + 1;
            }
            x0 = x1;
        }
        proof {
            assert forall|d: int| #![trigger dst@[d]] 0 <= d < w * h implies d / (h as int) < w by {
                assert(w * h == h * w) by (nonlinear_arith);
                lemma_cell_split(h as int, w as int, d);
            }
        }
        y0 = y1;
    }
    proof {
        assert forall|d: int| 0 <= d < dst@.len() implies #[trigger] dst@[d] == src@[(d % (h as int))
            * w + d / (h as int)] by {
            assert(w * h == h * w) by (nonlinear_arith);
            lemma_cell_split(h as int, w as int, d);
        }
    }
}

/// The clamped index lies in the array, and no index of the array is nearer.
pub proof fn lemma_clamped_nearest(i: int, n: int, j: int)
    requires
        0 <= j < n,
    ensures
        0 <= clamped(i, n) < n,
        i <= j ==> i <= clamped(i, n) <= j,
        i >= j ==> j <= clamped(i, n) <= i,
        0 <= i < n ==> clamped(i, n) == i,
{
}

/// What stands in column `x` and row `y` of an array stands in column `y` and
/// row `x` of its transpose.
pub proof fn lemma_transposed_cell<T>(dst: Seq<T>, src: Seq<T>, w: int, h: int, x: int, y: int)
    requires
        0 <= x < w,
        0 <= y < h,
        src.len() == w * h,
        is_transpose(dst, src, w, h),
    ensures
        dst[x * h + y] == src[y * w + x],
{
    lemma_cell_inside(h, w, y, x);
    lemma_cell_unique(h, y, x);
    assert(h * w == w * h) by (nonlinear_arith);
}

} // verus!
