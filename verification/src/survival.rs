//! Which stripes and rows of a payload survive the channel. A stripe is a band
//! of payload rows under one checksum: it is alive only if every cell in it
//! came back right.

use vstd::prelude::*;

use crate::pipeline::common;
use crate::sums::{
    lemma_sum_below, lemma_sum_plus, lemma_sum_positive, lemma_sum_prefix,
    lemma_sum_range_congruent, lemma_sum_split, sum_range,
};
use crate::symbol::{PAYLOAD_COLS, PAYLOAD_ROWS};

verus! {

/// The cells from `start` up to `end` all came back right.
pub open spec fn intact(sent: Seq<u8>, got: Seq<u8>, start: int, end: int) -> bool {
    forall|c: int| start <= c < end ==> #[trigger] sent[c] == got[c]
}

/// Rows above stripe `i`.
pub open spec fn rows_before(stripes: Seq<usize>, i: nat) -> int {
    sum_range(0, i, |j: int| stripes[j] as int)
}

/// Stripe `i` is alive.
pub open spec fn stripe_alive(sent: Seq<u8>, got: Seq<u8>, stripes: Seq<usize>, i: int) -> bool {
    intact(
        sent,
        got,
        rows_before(stripes, i as nat) * PAYLOAD_COLS,
        rows_before(stripes, (i + 1) as nat) * PAYLOAD_COLS,
    )
}

/// Payload row `r` is alive.
pub open spec fn row_alive(sent: Seq<u8>, got: Seq<u8>, r: int) -> bool {
    intact(sent, got, r * PAYLOAD_COLS, (r + 1) * PAYLOAD_COLS)
}

/// Number of stripes alive.
pub open spec fn alive_stripes(sent: Seq<u8>, got: Seq<u8>, stripes: Seq<usize>) -> int {
    sum_range(
        0,
        stripes.len(),
        |i: int|
            if stripe_alive(sent, got, stripes, i) {
                1
            } else {
                0
            },
    )
}

/// Number of payload rows alive, among the first `rows`.
pub open spec fn alive_rows(sent: Seq<u8>, got: Seq<u8>, rows: nat) -> int {
    sum_range(
        0,
        rows,
        |r: int|
            if row_alive(sent, got, r) {
                1
            } else {
                0
            },
    )
}

/// Rows in the stripes that are alive.
pub open spec fn rows_in_alive_stripes(sent: Seq<u8>, got: Seq<u8>, stripes: Seq<usize>) -> int {
    sum_range(
        0,
        stripes.len(),
        |i: int|
            if stripe_alive(sent, got, stripes, i) {
                stripes[i] as int
            } else {
                0
            },
    )
}

/// The stripes fit into the cells on both sides.
pub open spec fn stripes_fit(sent: Seq<u8>, got: Seq<u8>, stripes: Seq<usize>) -> bool {
    &&& rows_before(stripes, stripes.len()) * PAYLOAD_COLS <= sent.len()
    &&& rows_before(stripes, stripes.len()) * PAYLOAD_COLS <= got.len()
}

/// Whether the cells from `start` up to `end` all came back right.
fn check_intact(sent: &[u8], got: &[u8], start: usize, end: usize) -> (ok: bool)
    requires
        start <= end <= sent@.len(),
        end <= got@.len(),
    ensures
        ok == intact(sent@, got@, start as int, end as int),
{
    let mut c: usize = start;
    while c < end
        invariant
            start <= c <= end,
            end <= sent@.len(),
            end <= got@.len(),
            intact(sent@, got@, start as int, c as int),
        decreases end - c,
    {
        if sent[c] != got[c] {
            return false;
        }
        c = c + 1;
    }
    true
}

/// The rows above a stripe are among all the rows.
proof fn lemma_rows_before(stripes: Seq<usize>, i: nat)
    requires
        i < stripes.len(),
    ensures
        rows_before(stripes, i + 1) == rows_before(stripes, i) + stripes[i as int],
        0 <= rows_before(stripes, i) <= rows_before(stripes, i + 1) <= rows_before(
            stripes,
            stripes.len(),
        ),
{
    let f = |j: int| stripes[j] as int;
    lemma_sum_below(i, f, f);
    lemma_sum_prefix(i + 1, stripes.len(), f);
}

/// How many stripes would pass their checksum.
pub fn alive_stripe_count(sent: &[u8], got: &[u8], stripe_rows: &[usize]) -> (n: usize)
    requires
        stripes_fit(sent@, got@, stripe_rows@),
    ensures
        n == alive_stripes(sent@, got@, stripe_rows@),
        n <= stripe_rows@.len(),
{
    let mut n: usize = 0;
    let mut r0: usize = 0;
    let mut i: usize = 0;
    let ghost f = |i: int|
        if stripe_alive(sent@, got@, stripe_rows@, i) {
            1int
        } else {
            0
        };
    proof {
        assert(sent.len() == sent@.len());
    }
    while i < stripe_rows.len()
        invariant
            stripes_fit(sent@, got@, stripe_rows@),
            sent@.len() <= usize::MAX,
            i <= stripe_rows@.len(),
            r0 == rows_before(stripe_rows@, i as nat),
            f == (|i: int|
                if stripe_alive(sent@, got@, stripe_rows@, i) {
                    1int
                } else {
                    0
                }),
            n == sum_range(0, i as nat, f),
            n <= i,
        decreases stripe_rows@.len() - i,
    {
        proof {
            lemma_rows_before(stripe_rows@, i as nat);
        }
        let rows: usize = stripe_rows[i];
        let start: usize = r0 * PAYLOAD_COLS;
        let end: usize = (r0 + rows) * PAYLOAD_COLS;
        if check_intact(sent, got, start, end) {
            n = n + 1;
        }
        r0 = r0 + rows;
        i = i + 1;
    }
    n
}

/// Stripes alive, and all stripes.
pub fn stripe_survival(sent: &[u8], got: &[u8], stripe_rows: &[usize]) -> (r: (usize, usize))
    requires
        stripes_fit(sent@, got@, stripe_rows@),
    ensures
        r.0 == alive_stripes(sent@, got@, stripe_rows@),
        r.1 == stripe_rows@.len(),
        r.0 <= r.1,
{
    (alive_stripe_count(sent, got, stripe_rows), stripe_rows.len())
}

/// Payload rows alive, and all rows.
pub fn row_survival(sent: &[u8], got: &[u8]) -> (r: (usize, usize))
    requires
        PAYLOAD_ROWS * PAYLOAD_COLS <= sent@.len(),
        PAYLOAD_ROWS * PAYLOAD_COLS <= got@.len(),
    ensures
        r.0 == alive_rows(sent@, got@, PAYLOAD_ROWS as nat),
        r.1 == PAYLOAD_ROWS,
        r.0 <= r.1,
{
    let mut n: usize = 0;
    let mut i: usize = 0;
    let ghost f = |r: int|
        if row_alive(sent@, got@, r) {
            1int
        } else {
            0
        };
    while i < PAYLOAD_ROWS
        invariant
            PAYLOAD_ROWS * PAYLOAD_COLS <= sent@.len(),
            PAYLOAD_ROWS * PAYLOAD_COLS <= got@.len(),
            i <= PAYLOAD_ROWS,
            f == (|r: int|
                if row_alive(sent@, got@, r) {
                    1int
                } else {
                    0
                }),
            n == sum_range(0, i as nat, f),
            n <= i,
        decreases PAYLOAD_ROWS - i,
    {
        if check_intact(sent, got, i * PAYLOAD_COLS, (i + 1) * PAYLOAD_COLS) {
            n = n + 1;
        }
        i = i + 1;
    }
    (n, PAYLOAD_ROWS)
}

/// Payload bits in the stripes that are alive, and whether no stripe is.
pub fn surviving_payload_bits(sent: &[u8], got: &[u8], bpc: u32, stripe_rows: &[usize]) -> (r: (
    usize,
    bool,
))
    requires
        stripes_fit(sent@, got@, stripe_rows@),
        sent@.len() * bpc <= usize::MAX,
    ensures
        r.0 == rows_in_alive_stripes(sent@, got@, stripe_rows@) * PAYLOAD_COLS * bpc,
        r.1 == forall|i: int|
            0 <= i < stripe_rows@.len() ==> !#[trigger] stripe_alive(
                sent@,
                got@,
                stripe_rows@,
                i,
            ),
        r.1 <==> alive_stripes(sent@, got@, stripe_rows@) == 0,
{
    proof {
        lemma_alive_and_wrong_stripes(sent@, got@, stripe_rows@);
    }
    let mut alive: usize = 0;
    let mut dead: bool = true;
    let mut r0: usize = 0;
    let mut i: usize = 0;
    let ghost f = |i: int|
        if stripe_alive(sent@, got@, stripe_rows@, i) {
            stripe_rows@[i] as int
        } else {
            0
        };
    proof {
        assert(sent.len() == sent@.len());
    }
    while i < stripe_rows.len()
        invariant
            stripes_fit(sent@, got@, stripe_rows@),
            sent@.len() <= usize::MAX,
            i <= stripe_rows@.len(),
            r0 == rows_before(stripe_rows@, i as nat),
            f == (|i: int|
                if stripe_alive(sent@, got@, stripe_rows@, i) {
                    stripe_rows@[i] as int
                } else {
                    0
                }),
            alive == sum_range(0, i as nat, f),
            alive <= r0,
            dead == forall|j: int|
                0 <= j < i ==> !#[trigger] stripe_alive(sent@, got@, stripe_rows@, j),
        decreases stripe_rows@.len() - i,
    {
        proof {
            lemma_rows_before(stripe_rows@, i as nat);
        }
        let rows: usize = stripe_rows[i];
        let start: usize = r0 * PAYLOAD_COLS;
        let end: usize = (r0 + rows) * PAYLOAD_COLS;
        if check_intact(sent, got, start, end) {
            alive = alive + rows;
            dead = false;
            assert(stripe_alive(sent@, got@, stripe_rows@, i as int));
        }
        r0 = r0 + rows;
        i = i + 1;
    }
    assert(alive * PAYLOAD_COLS * bpc <= sent@.len() * bpc) by (nonlinear_arith)
        requires
            alive * PAYLOAD_COLS <= sent@.len(),
            bpc >= 0,
    ;
    (alive * PAYLOAD_COLS * bpc as usize, dead)
}

/// A perfect channel keeps every stripe, every row and every bit.
pub proof fn lemma_perfect_survival(cells: Seq<u8>, stripes: Seq<usize>)
    ensures
        alive_stripes(cells, cells, stripes) == stripes.len(),
        rows_in_alive_stripes(cells, cells, stripes) == rows_before(stripes, stripes.len()),
        forall|rows: nat| #[trigger] alive_rows(cells, cells, rows) == rows,
{
    let n = stripes.len();
    let f = |i: int|
        if stripe_alive(cells, cells, stripes, i) {
            1int
        } else {
            0
        };
    lemma_sum_ones(0, n, f);
    let g = |i: int|
        if stripe_alive(cells, cells, stripes, i) {
            stripes[i] as int
        } else {
            0
        };
    lemma_sum_range_congruent(0, n, g, |j: int| stripes[j] as int);
    assert forall|rows: nat| #[trigger] alive_rows(cells, cells, rows) == rows by {
        let h = |r: int|
            if row_alive(cells, cells, r) {
                1int
            } else {
                0
            };
        lemma_sum_ones(0, rows, h);
    }
}

/// One wrong cell kills exactly the stripe it lies in: a stripe with the wrong
/// cell is dead, and a stripe without one is alive.
pub proof fn lemma_wrong_cell_kills(sent: Seq<u8>, got: Seq<u8>, stripes: Seq<usize>, c: int, i: int)
    requires
        stripes_fit(sent, got, stripes),
        0 <= i < stripes.len(),
        0 <= c < common(sent, got),
        sent[c] != got[c],
        forall|d: int| 0 <= d < common(sent, got) && d != c ==> #[trigger] sent[d] == got[d],
    ensures
        stripe_alive(sent, got, stripes, i) <==> !(rows_before(stripes, i as nat) * PAYLOAD_COLS
            <= c < rows_before(stripes, (i + 1) as nat) * PAYLOAD_COLS),
{
    lemma_rows_before(stripes, i as nat);
}

/// Checksums on rows keep at least what checksums on stripes keep.
pub proof fn lemma_rows_keep_more(sent: Seq<u8>, got: Seq<u8>, stripes: Seq<usize>)
    ensures
        rows_in_alive_stripes(sent, got, stripes) <= alive_rows(
            sent,
            got,
            rows_before(stripes, stripes.len()) as nat,
        ),
{
    lemma_rows_keep_more_upto(sent, got, stripes, stripes.len());
}

/// The same for the first `n` stripes.
proof fn lemma_rows_keep_more_upto(sent: Seq<u8>, got: Seq<u8>, stripes: Seq<usize>, n: nat)
    requires
        n <= stripes.len(),
    ensures
        rows_before(stripes, n) >= 0,
        sum_range(
            0,
            n,
            |i: int|
                if stripe_alive(sent, got, stripes, i) {
                    stripes[i] as int
                } else {
                    0
                },
        ) <= alive_rows(sent, got, rows_before(stripes, n) as nat),
    decreases n,
{
    if n > 0 {
        let i = n - 1;
        lemma_rows_keep_more_upto(sent, got, stripes, i as nat);
        lemma_rows_before(stripes, i as nat);
        let h = |r: int|
            if row_alive(sent, got, r) {
                1int
            } else {
                0
            };
        let a = rows_before(stripes, i as nat) as nat;
        let k = stripes[i] as nat;
        lemma_sum_split(0, a, k, h);
        if stripe_alive(sent, got, stripes, i) {
            assert forall|r: int| a <= r < a + k implies #[trigger] h(r) == 1 by {
                assert(rows_before(stripes, i as nat) * PAYLOAD_COLS <= r * PAYLOAD_COLS);
                assert((r + 1) * PAYLOAD_COLS <= rows_before(stripes, n) * PAYLOAD_COLS);
                assert(row_alive(sent, got, r));
            }
            lemma_sum_ones(a as int, k, h);
        } else {
            lemma_sum_nonnegative(a as int, k, h);
        }
    }
}

/// A sum of ones counts them, wherever it begins.
proof fn lemma_sum_ones(lo: int, n: nat, f: spec_fn(int) -> int)
    requires
        forall|i: int| lo <= i < lo + n ==> #[trigger] f(i) == 1,
    ensures
        sum_range(lo, n, f) == n,
    decreases n,
{
    if n > 0 {
        lemma_sum_ones(lo, (n - 1) as nat, f);
    }
}

/// A sum of terms that are not negative is not negative.
proof fn lemma_sum_nonnegative(lo: int, n: nat, f: spec_fn(int) -> int)
    requires
        forall|i: int| lo <= i < lo + n ==> #[trigger] f(i) >= 0,
    ensures
        sum_range(lo, n, f) >= 0,
    decreases n,
{
    if n > 0 {
        lemma_sum_nonnegative(lo, (n - 1) as nat, f);
    }
}

/// Stripes follow each other from the first row on: the first begins at row
/// zero and each one ends where the next begins.
pub proof fn lemma_stripes_stacked(stripes: Seq<usize>, i: int)
    requires
        0 <= i < stripes.len(),
    ensures
        rows_before(stripes, 0) == 0,
        rows_before(stripes, (i + 1) as nat) == rows_before(stripes, i as nat) + stripes[i],
{
    lemma_rows_before(stripes, i as nat);
}

/// Every stripe is either alive or holds a wrong cell: the stripes alive and
/// those with at least one wrong cell are all the stripes together, however
/// many cells are wrong. None is alive exactly when each holds a wrong cell.
pub proof fn lemma_alive_and_wrong_stripes(sent: Seq<u8>, got: Seq<u8>, stripes: Seq<usize>)
    ensures
        alive_stripes(sent, got, stripes) + sum_range(
            0,
            stripes.len(),
            |i: int|
                if exists|c: int|
                    rows_before(stripes, i as nat) * 57 <= c < (rows_before(stripes, i as nat)
                        + stripes[i]) * 57 && #[trigger] sent[c] != got[c] {
                    1
                } else {
                    0
                },
        ) == stripes.len(),
        alive_stripes(sent, got, stripes) == 0 <==> forall|i: int|
            0 <= i < stripes.len() ==> exists|c: int|
                #[trigger] rows_before(stripes, i as nat) * 57 <= c < (rows_before(
                    stripes,
                    i as nat,
                ) + stripes[i]) * 57 && #[trigger] sent[c] != got[c],
        alive_stripes(sent, got, stripes) > 0 <==> exists|i: int|
            0 <= i < stripes.len() && #[trigger] stripe_alive(sent, got, stripes, i),
        alive_stripes(sent, got, stripes) >= 0,
{
    let n = stripes.len();
    let f = |i: int|
        if stripe_alive(sent, got, stripes, i) {
            1int
        } else {
            0
        };
    let g = |i: int|
        if exists|c: int|
            rows_before(stripes, i as nat) * 57 <= c < (rows_before(stripes, i as nat)
                + stripes[i]) * 57 && #[trigger] sent[c] != got[c] {
            1int
        } else {
            0
        };
    let h = |i: int| f(i) + g(i);
    assert forall|i: int| 0 <= i < n implies #[trigger] f(i) + g(i) == 1 && (f(i) == 0 <==> exists|
        c: int,
    |
        rows_before(stripes, i as nat) * 57 <= c < (rows_before(stripes, i as nat) + stripes[i])
            * 57 && #[trigger] sent[c] != got[c]) by {
        lemma_rows_before(stripes, i as nat);
    }
    lemma_sum_ones(0, n, h);
    lemma_sum_plus(0, n, f, g, h);
    lemma_sum_positive(0, n, f);
    assert forall|i: int| 0 <= i < n implies (#[trigger] f(i) == 0 <==> exists|c: int|
        #[trigger] rows_before(stripes, i as nat) * 57 <= c < (rows_before(stripes, i as nat)
            + stripes[i]) * 57 && #[trigger] sent[c] != got[c]) by {
        assert(f(i) + g(i) == 1);
    }
    if alive_stripes(sent, got, stripes) == 0 {
        assert forall|i: int| 0 <= i < n implies exists|c: int|
            #[trigger] rows_before(stripes, i as nat) * 57 <= c < (rows_before(stripes, i as nat)
                + stripes[i]) * 57 && #[trigger] sent[c] != got[c] by {
            assert(f(i) == 0);
        }
    }
    if alive_stripes(sent, got, stripes) > 0 {
        let i = choose|i: int| 0 <= i < n && #[trigger] f(i) != 0;
        assert(stripe_alive(sent, got, stripes, i));
    }
}

/// Every payload row is either alive or holds a wrong cell.
pub proof fn lemma_alive_and_wrong_rows(sent: Seq<u8>, got: Seq<u8>, rows: nat)
    ensures
        alive_rows(sent, got, rows) + sum_range(
            0,
            rows,
            |r: int|
                if exists|x: int| 0 <= x < 57 && #[trigger] sent[r * 57 + x] != got[r * 57 + x] {
                    1
                } else {
                    0
                },
        ) == rows,
{
    let f = |r: int|
        if row_alive(sent, got, r) {
            1int
        } else {
            0
        };
    let g = |r: int|
        if exists|x: int| 0 <= x < 57 && #[trigger] sent[r * 57 + x] != got[r * 57 + x] {
            1int
        } else {
            0
        };
    let h = |r: int| f(r) + g(r);
    assert forall|r: int| 0 <= r < rows implies #[trigger] f(r) + g(r) == 1 by {
        if !row_alive(sent, got, r) {
            let c = choose|c: int|
                r * PAYLOAD_COLS <= c < (r + 1) * PAYLOAD_COLS && #[trigger] sent[c] != got[c];
            assert(sent[r * 57 + (c - r * 57)] != got[r * 57 + (c - r * 57)]);
        }
    }
    lemma_sum_ones(0, rows, h);
    lemma_sum_plus(0, rows, f, g, h);
}

/// The rows of a stripe survive or perish together: the rows in the stripes
/// alive and the rows in the stripes with a wrong cell are all the rows.
pub proof fn lemma_rows_live_by_stripe(sent: Seq<u8>, got: Seq<u8>, stripes: Seq<usize>)
    ensures
        rows_in_alive_stripes(sent, got, stripes) + sum_range(
            0,
            stripes.len(),
            |i: int|
                if exists|c: int|
                    rows_before(stripes, i as nat) * 57 <= c < (rows_before(stripes, i as nat)
                        + stripes[i]) * 57 && #[trigger] sent[c] != got[c] {
                    stripes[i] as int
                } else {
                    0
                },
        ) == sum_range(0, stripes.len(), |i: int| stripes[i] as int),
{
    let f = |i: int|
        if stripe_alive(sent, got, stripes, i) {
            stripes[i] as int
        } else {
            0
        };
    let g = |i: int|
        if exists|c: int|
            rows_before(stripes, i as nat) * 57 <= c < (rows_before(stripes, i as nat)
                + stripes[i]) * 57 && #[trigger] sent[c] != got[c] {
            stripes[i] as int
        } else {
            0
        };
    let h = |i: int| stripes[i] as int;
    assert forall|i: int| 0 <= i < stripes.len() implies #[trigger] h(i) == f(i) + g(i) by {
        lemma_rows_before(stripes, i as nat);
    }
    lemma_sum_plus(0, stripes.len(), f, g, h);
}

} // verus!
