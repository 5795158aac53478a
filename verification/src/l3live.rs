//! Framing candidates on a live channel: capacities of coded blocks, corruption
//! of cells at random and in bursts, and majority votes over repeated passes.

use vstd::prelude::*;

use crate::bits::lemma_single_one;
use crate::framed::stripe_cap;
use crate::rng::{below, lemma_steps_add, output, state_after, xorshift, Rng};
use crate::sums::{
    lemma_sum_prefix, lemma_sum_range_congruent, lemma_sum_split, lemma_sum_zero, sum_range,
};
use crate::symbol::{PAYLOAD_CELLS, PAYLOAD_COLS};

verus! {

/// Bytes of a frame in which every cell carries data.
pub fn ideal_bytes(bpc: u32) -> (n: usize)
    requires
        PAYLOAD_CELLS * bpc <= usize::MAX,
    ensures
        n == (PAYLOAD_CELLS * bpc) as int / 8,
        8 * n <= PAYLOAD_CELLS * bpc < 8 * n + 8,
{
    PAYLOAD_CELLS * bpc as usize / 8
}

/// Frames in one pass over all symbols: 94 at one bit per cell, inversely
/// proportional to the bits per cell, rounded to the nearest, at least one.
pub fn frames_per_pass(bpc: u32) -> (n: u32)
    requires
        bpc >= 1,
    ensures
        n >= 1,
        n > 1 ==> (2 * n - 1) * bpc <= 2 * 94,
        2 * 94 < (2 * n + 1) * bpc,
{
    let wide: u64 = (188 + bpc as u64) / (2 * bpc as u64);
    let ghost b = bpc as int;
    let ghost w = wide as int;
    assert(2 * b * w <= 188 + b < 2 * b * (w + 1)) by (nonlinear_arith)
        requires
            w == (188 + b) / (2 * b),
            b >= 1,
    ;
    assert((2 * w - 1) * b <= 188 < (2 * w + 1) * b) by (nonlinear_arith)
        requires
            2 * b * w <= 188 + b < 2 * b * (w + 1),
    ;
    assert(w <= 188) by (nonlinear_arith)
        requires
            2 * b * w <= 188 + b,
            b >= 1,
    ;
    if wide == 0 {
        assert(188 < (2 * 1 + 1) * b) by (nonlinear_arith)
            requires
                188 < (2 * 0 + 1) * b,
        ;
        1
    } else {
        wide as u32
    }
}

/// The stripes of a frame as blocks: cells and data bytes of each.
pub fn cur_blocks(bpc: u32, stripe_rows: &[usize]) -> (blocks: Vec<(usize, usize)>)
    requires
        forall|i: int|
            0 <= i < stripe_rows@.len() ==> 16 <= #[trigger] stripe_rows@[i] * PAYLOAD_COLS * bpc
                <= usize::MAX,
    ensures
        blocks@.len() == stripe_rows@.len(),
        forall|i: int|
            0 <= i < blocks@.len() ==> (#[trigger] blocks@[i]).0 == stripe_rows@[i] * PAYLOAD_COLS
                && blocks@[i].1 == stripe_cap(stripe_rows@[i] as int, bpc as int),
{
    let mut blocks: Vec<(usize, usize)> = Vec::new();
    let mut i: usize = 0;
    while i < stripe_rows.len()
        invariant
            forall|i: int|
                0 <= i < stripe_rows@.len() ==> 16 <= #[trigger] stripe_rows@[i] * PAYLOAD_COLS
                    * bpc <= usize::MAX,
            i <= stripe_rows@.len(),
            blocks@.len() == i,
            forall|j: int|
                0 <= j < i ==> (#[trigger] blocks@[j]).0 == stripe_rows@[j] * PAYLOAD_COLS
                    && blocks@[j].1 == stripe_cap(stripe_rows@[j] as int, bpc as int),
        decreases stripe_rows@.len() - i,
    {
        let rows: usize = stripe_rows[i];
        assert(16 <= stripe_rows@[i as int] * PAYLOAD_COLS * bpc);
        assert(rows * PAYLOAD_COLS <= rows * PAYLOAD_COLS * bpc) by (nonlinear_arith)
            requires
                rows * PAYLOAD_COLS * bpc >= 16,
                rows >= 0,
                bpc >= 0,
        ;
        let cells: usize = rows * PAYLOAD_COLS;
        blocks.push((cells, (cells * bpc as usize - 16) / 8));
        i = i + 1;
    }
    blocks
}

/// Cells in the first `n` blocks.
pub open spec fn block_cells(blocks: Seq<(usize, usize)>, n: nat) -> int {
    sum_range(0, n, |i: int| blocks[i].0 as int)
}

/// Data bytes in the first `n` blocks.
pub open spec fn block_data(blocks: Seq<(usize, usize)>, n: nat) -> int {
    sum_range(0, n, |i: int| blocks[i].1 as int)
}

/// The first `n` blocks are the shortest prefix that covers `need` bytes, or
/// all the blocks where even these do not.
pub open spec fn covers(blocks: Seq<(usize, usize)>, need: int, n: nat) -> bool {
    &&& n <= blocks.len()
    &&& n == 0 ==> blocks.len() == 0
    &&& n < blocks.len() ==> block_data(blocks, n) >= need
    &&& forall|m: nat| 0 < m < n ==> #[trigger] block_data(blocks, m) < need
}

/// Cells in the leading blocks that hold the first `need` bytes.
pub fn cover_cells(blocks: &[(usize, usize)], need: usize) -> (cells: usize)
    requires
        block_cells(blocks@, blocks@.len()) <= usize::MAX,
        block_data(blocks@, blocks@.len()) <= usize::MAX,
    ensures
        exists|n: nat| #[trigger] covers(blocks@, need as int, n) && cells == block_cells(blocks@, n),
{
    let ghost f = |i: int| blocks@[i].0 as int;
    let ghost g = |i: int| blocks@[i].1 as int;
    let mut acc: usize = 0;
    let mut cells: usize = 0;
    let mut i: usize = 0;
    while i < blocks.len()
        invariant
            block_cells(blocks@, blocks@.len()) <= usize::MAX,
            block_data(blocks@, blocks@.len()) <= usize::MAX,
            i <= blocks@.len(),
            cells == block_cells(blocks@, i as nat),
            acc == block_data(blocks@, i as nat),
            f == (|i: int| blocks@[i].0 as int),
            g == (|i: int| blocks@[i].1 as int),
            forall|m: nat| 0 < m <= i ==> #[trigger] block_data(blocks@, m) < need,
        decreases blocks@.len() - i,
    {
        proof {
            lemma_sum_prefix((i + 1) as nat, blocks@.len(), f);
            lemma_sum_prefix((i + 1) as nat, blocks@.len(), g);
        }
        let (c, d) = blocks[i];
        cells = cells + c;
        acc = acc + d;
        i = i + 1;
        if acc >= need {
            assert(covers(blocks@, need as int, i as nat));
            return cells;
        }
    }
    assert(covers(blocks@, need as int, i as nat));
    cells
}

/// The value that replaces `c` in an alphabet of `alpha` values, when the
/// generator is in state `s`.
pub open spec fn flipped(c: u8, alpha: u32, s: u64) -> u8 {
    if alpha == 2 {
        c ^ 1
    } else {
        let v = below(xorshift(s), alpha) as u8;
        if v == c {
            ((v as u32 + 1) % (alpha as int)) as u8
        } else {
            v
        }
    }
}

/// The generator state after the replacement.
pub open spec fn after_flip(alpha: u32, s: u64) -> u64 {
    if alpha == 2 {
        s
    } else {
        xorshift(s)
    }
}

/// Replaces a cell by another value of the alphabet.
pub fn flip_cell(c: &mut u8, alpha: u32, rng: &mut Rng)
    requires
        1 <= alpha,
    ensures
        *final(c) == flipped(*old(c), alpha, old(rng)@),
        final(rng)@ == after_flip(alpha, old(rng)@),
{
    if alpha == 2 {
        *c = *c ^ 1;
    } else {
        let mut nv: u8 = rng.next_u32_below(alpha) as u8;
        if nv == *c {
            nv = ((nv as u32 + 1) % alpha) as u8;
        }
        *c = nv;
    }
}

/// A replaced cell always holds another value of the alphabet.
pub proof fn lemma_flip_changes(c: u8, alpha: u32, s: u64)
    requires
        2 <= alpha <= 256,
        c < alpha,
    ensures
        flipped(c, alpha, s) != c,
        flipped(c, alpha, s) < alpha,
{
    if alpha == 2 {
        assert(c ^ 1 != c && (c < 2 ==> c ^ 1 < 2)) by (bit_vector);
    } else {
        let v = below(xorshift(s), alpha);
        assert(v < alpha);
        if v + 1 < alpha {
            vstd::arithmetic::div_mod::lemma_small_mod((v + 1) as nat, alpha as nat);
        } else {
            vstd::arithmetic::div_mod::lemma_mod_self_0(alpha as int);
        }
    }
}

/// Cells and generator state after the first `n` cells have gone through a
/// channel that corrupts a cell when its draw lies below `threshold`.
pub open spec fn iid_channel(cells: Seq<u8>, threshold: u64, alpha: u32, s: u64, n: nat) -> (
    Seq<u8>,
    u64,
)
    decreases n,
{
    if n == 0 {
        (cells, s)
    } else {
        let (done, t) = iid_channel(cells, threshold, alpha, s, (n - 1) as nat);
        let u = xorshift(t);
        if output(u) >> 11 < threshold {
            (done.update(n - 1, flipped(done[n - 1], alpha, u)), after_flip(alpha, u))
        } else {
            (done, u)
        }
    }
}

/// Corrupts every cell on its own: one whose 53-bit draw lies below `threshold`
/// is replaced by another value. A threshold of `p * 2^53`, rounded up, stands
/// for the probability `p`.
pub fn corrupt_iid(cells: &mut Vec<u8>, threshold: u64, bpc: u32, rng: &mut Rng)
    requires
        bpc < 32,
    ensures
        (final(cells)@, final(rng)@) == iid_channel(
            old(cells)@,
            threshold,
            1u32 << bpc,
            old(rng)@,
            old(cells)@.len(),
        ),
{
    let alpha: u32 = 1u32 << bpc;
    proof {
        lemma_single_one(bpc);
    }
    let n: usize = cells.len();
    let mut i: usize = 0;
    proof {
        lemma_iid_len(old(cells)@, threshold, alpha, old(rng)@, 0);
    }
    while i < n
        invariant
            alpha == 1u32 << bpc,
            alpha >= 1,
            n == old(cells)@.len(),
            cells@.len() == n,
            i <= n,
            (cells@, rng@) == iid_channel(old(cells)@, threshold, alpha, old(rng)@, i as nat),
        decreases n - i,
    {
        if rng.next_u53() < threshold {
            let mut v: u8 = cells[i];
            flip_cell(&mut v, alpha, rng);
            cells.set(i, v);
        }
        i = i + 1;
    }
}

/// The channel keeps the number of cells.
proof fn lemma_iid_len(cells: Seq<u8>, threshold: u64, alpha: u32, s: u64, n: nat)
    requires
        n <= cells.len(),
    ensures
        iid_channel(cells, threshold, alpha, s, n).0.len() == cells.len(),
    decreases n,
{
    if n > 0 {
        lemma_iid_len(cells, threshold, alpha, s, (n - 1) as nat);
    }
}

/// The draw that decides whether cell `i` is corrupted.
pub open spec fn iid_draw(cells: Seq<u8>, threshold: u64, alpha: u32, s: u64, i: int) -> u64 {
    output(xorshift(iid_channel(cells, threshold, alpha, s, i as nat).1)) >> 11
}

/// A cell comes out changed exactly when its draw lies below the threshold,
/// and changed or not it stays in the alphabet.
pub proof fn lemma_iid_changes(cells: Seq<u8>, threshold: u64, alpha: u32, s: u64, n: nat, i: int)
    requires
        2 <= alpha <= 256,
        forall|j: int| 0 <= j < cells.len() ==> #[trigger] cells[j] < alpha,
        0 <= i < n <= cells.len(),
    ensures
        iid_channel(cells, threshold, alpha, s, n).0[i] != cells[i] <==> iid_draw(
            cells,
            threshold,
            alpha,
            s,
            i,
        ) < threshold,
        iid_channel(cells, threshold, alpha, s, n).0[i] < alpha,
    decreases n,
{
    let m = (n - 1) as nat;
    let (done, t) = iid_channel(cells, threshold, alpha, s, m);
    lemma_iid_len(cells, threshold, alpha, s, m);
    lemma_iid_rest(cells, threshold, alpha, s, m);
    if i < m {
        lemma_iid_changes(cells, threshold, alpha, s, m, i);
    } else {
        lemma_flip_changes(cells[i], alpha, xorshift(t));
    }
}

/// Cells beyond the first `n` are still untouched.
proof fn lemma_iid_rest(cells: Seq<u8>, threshold: u64, alpha: u32, s: u64, n: nat)
    requires
        n <= cells.len(),
    ensures
        forall|j: int|
            n <= j < cells.len() ==> #[trigger] iid_channel(cells, threshold, alpha, s, n).0[j]
                == cells[j],
    decreases n,
{
    if n > 0 {
        lemma_iid_rest(cells, threshold, alpha, s, (n - 1) as nat);
        lemma_iid_len(cells, threshold, alpha, s, (n - 1) as nat);
    }
}

/// Marks after a burst over `len` cells from `start` on.
pub open spec fn burst(marks: Seq<bool>, start: int, len: int) -> Seq<bool> {
    Seq::new(marks.len(), |j: int| marks[j] || start <= j < start + len)
}

/// Number of marks.
pub open spec fn count_marks(marks: Seq<bool>) -> int {
    sum_range(
        0,
        marks.len(),
        |j: int|
            if marks[j] {
                1
            } else {
                0
            },
    )
}

/// Marks and generator state after bursts of 3 to 8 cells have been thrown
/// until `target` cells are marked, at most `tries` times.
pub open spec fn burst_channel(marks: Seq<bool>, target: int, tries: nat, s: u64) -> (Seq<bool>, u64)
    decreases tries,
{
    if count_marks(marks) >= target || tries == 0 {
        (marks, s)
    } else {
        let s1 = xorshift(s);
        let s2 = xorshift(s1);
        let len = 3 + below(s1, 6);
        let start = below(s2, marks.len() as u32) as int;
        burst_channel(burst(marks, start, len), target, (tries - 1) as nat, s2)
    }
}

/// Cells and generator state after the marked ones of the first `n` cells have been replaced.
pub open spec fn flip_marked(cells: Seq<u8>, marks: Seq<bool>, alpha: u32, s: u64, n: nat) -> (
    Seq<u8>,
    u64,
)
    decreases n,
{
    if n == 0 {
        (cells, s)
    } else {
        let (done, t) = flip_marked(cells, marks, alpha, s, (n - 1) as nat);
        if marks[n - 1] {
            (done.update(n - 1, flipped(done[n - 1], alpha, t)), after_flip(alpha, t))
        } else {
            (done, t)
        }
    }
}

/// No marks.
pub open spec fn unmarked(n: nat) -> Seq<bool> {
    Seq::new(n, |j: int| false)
}

/// How often bursts are thrown for `target` cells.
pub open spec fn burst_tries(target: int) -> nat {
    (target * 6 + 32) as nat
}

/// Throws one burst: marks the cells from `start` on, `len` of them or up to
/// the end, and returns how many were not marked before.
fn throw_burst(marks: &mut Vec<bool>, start: usize, len: usize) -> (fresh: usize)
    requires
        start + len <= usize::MAX,
    ensures
        final(marks)@ == burst(old(marks)@, start as int, len as int),
        fresh == count_marks(final(marks)@) - count_marks(old(marks)@),
        fresh <= len,
{
    let n: usize = marks.len();
    let mut fresh: usize = 0;
    let mut k: usize = 0;
    proof {
        assert(burst(old(marks)@, start as int, 0) =~= old(marks)@);
    }
    while k < len && start + k < n
        invariant
            start + len <= usize::MAX,
            n == old(marks)@.len(),
            k <= len,
            k == 0 || start + k <= n,
            marks@ == burst(old(marks)@, start as int, k as int),
            fresh == count_marks(marks@) - count_marks(old(marks)@),
            fresh <= k,
        decreases len - k,
    {
        let idx: usize = start + k;
        let ghost before = marks@;
        if !marks[idx] {
            marks.set(idx, true);
            fresh = fresh + 1;
            proof {
                lemma_mark_one(before, idx as int);
            }
        }
        k = k + 1;
        assert(marks@ =~= burst(old(marks)@, start as int, k as int));
    }
    assert(marks@ =~= burst(old(marks)@, start as int, len as int));
    fresh
}

/// A new mark counts one more.
proof fn lemma_mark_one(marks: Seq<bool>, i: int)
    requires
        0 <= i < marks.len(),
        !marks[i],
    ensures
        count_marks(marks.update(i, true)) == count_marks(marks) + 1,
{
    let f = |j: int|
        if marks[j] {
            1int
        } else {
            0
        };
    let g = |j: int|
        if marks.update(i, true)[j] {
            1int
        } else {
            0
        };
    lemma_sum_range_congruent(0, i as nat, f, g);
    let rest = (marks.len() - i - 1) as nat;
    lemma_sum_split(0, i as nat, 1, f);
    lemma_sum_split(0, i as nat, 1, g);
    lemma_sum_split(0, (i + 1) as nat, rest, f);
    lemma_sum_split(0, (i + 1) as nat, rest, g);
    lemma_sum_range_congruent(i + 1, rest, f, g);
    reveal_with_fuel(sum_range, 2);
}

/// Corrupts about `target` cells in bursts of 3 to 8 neighbours: each cell that
/// a burst hits is replaced by another value.
pub fn corrupt_clustered(cells: &mut Vec<u8>, target: usize, bpc: u32, rng: &mut Rng)
    requires
        bpc < 32,
        old(cells)@.len() <= u32::MAX,
        target * 6 + 32 <= usize::MAX,
        target > 0 ==> old(cells)@.len() > 0,
        old(cells)@.len() + 8 <= usize::MAX,
    ensures
        target == 0 ==> final(cells)@ == old(cells)@ && final(rng)@ == old(rng)@,
        target > 0 ==> ({
            let n = old(cells)@.len();
            let (marks, s) = burst_channel(
                unmarked(n),
                target as int,
                burst_tries(target as int),
                old(rng)@,
            );
            (final(cells)@, final(rng)@) == flip_marked(old(cells)@, marks, 1u32 << bpc, s, n)
        }),
{
    let n: usize = cells.len();
    if target == 0 {
        return;
    }
    let alpha: u32 = 1u32 << bpc;
    proof {
        lemma_single_one(bpc);
    }
    let mut marks: Vec<bool> = Vec::new();
    let mut i: usize = 0;
    while i < n
        invariant
            i <= n,
            marks@ == unmarked(i as nat),
        decreases n - i,
    {
        marks.push(false);
        i = i + 1;
        assert(marks@ =~= unmarked(i as nat));
    }
    let limit: usize = target * 6 + 32;
    let mut count: usize = 0;
    let mut guard: usize = 0;
    let ghost goal = burst_channel(
        unmarked(n as nat),
        target as int,
        burst_tries(target as int),
        rng@,
    );
    proof {
        lemma_unmarked(n as nat);
        lemma_marks_bounded(marks@);
    }
    while count < target && guard < limit
        invariant
            n == marks@.len(),
            0 < n <= u32::MAX,
            limit == burst_tries(target as int),
            guard <= limit,
            count == count_marks(marks@),
            count <= n,
            n + 8 <= usize::MAX,
            burst_channel(marks@, target as int, (limit - guard) as nat, rng@) == goal,
        decreases limit - guard,
    {
        guard = guard + 1;
        let len: usize = 3 + rng.next_u32_below(6) as usize;
        let start: usize = rng.next_u32_below(n as u32) as usize;
        let fresh: usize = throw_burst(&mut marks, start, len);
        proof {
            lemma_marks_bounded(marks@);
        }
        count = count + fresh;
    }
    assert((marks@, rng@) == goal);
    let ghost drawn = rng@;
    let mut j: usize = 0;
    while j < n
        invariant
            alpha == 1u32 << bpc,
            alpha >= 1,
            n == old(cells)@.len(),
            cells@.len() == n,
            marks@.len() == n,
            j <= n,
            (cells@, rng@) == flip_marked(old(cells)@, marks@, alpha, drawn, j as nat),
        decreases n - j,
    {
        if marks[j] {
            let mut v: u8 = cells[j];
            flip_cell(&mut v, alpha, rng);
            cells.set(j, v);
        }
        j = j + 1;
    }
}

/// No marks count zero.
proof fn lemma_unmarked(n: nat)
    ensures
        count_marks(unmarked(n)) == 0,
{
    let m = unmarked(n);
    lemma_sum_zero(
        0,
        n,
        |j: int|
            if m[j] {
                1
            } else {
                0
            },
    );
}

/// There are no more marks than cells.
proof fn lemma_marks_bounded(marks: Seq<bool>)
    ensures
        0 <= count_marks(marks) <= marks.len(),
{
    let f = |j: int|
        if marks[j] {
            1int
        } else {
            0
        };
    lemma_count_bounded(marks.len(), f);
}

/// A sum of zeros and ones is no more than their number.
proof fn lemma_count_bounded(n: nat, f: spec_fn(int) -> int)
    requires
        forall|j: int| 0 <= j < n ==> 0 <= #[trigger] f(j) <= 1,
    ensures
        0 <= sum_range(0, n, f) <= n,
    decreases n,
{
    if n > 0 {
        lemma_count_bounded((n - 1) as nat, f);
    }
}

/// A burst marks at most its length anew.
proof fn lemma_burst_count(marks: Seq<bool>, start: int, len: nat)
    requires
        0 <= start,
    ensures
        count_marks(marks) <= count_marks(burst(marks, start, len as int)) <= count_marks(marks)
            + len,
    decreases len,
{
    if len == 0 {
        assert(burst(marks, start, 0) =~= marks);
    } else {
        let m = (len - 1) as nat;
        let before = burst(marks, start, m as int);
        let after = burst(marks, start, len as int);
        lemma_burst_count(marks, start, m);
        let i = start + m;
        if i < marks.len() && !before[i] {
            lemma_mark_one(before, i);
            assert(after =~= before.update(i, true));
        } else {
            assert(after =~= before);
        }
    }
}

/// Bursts stop within seven cells of the target.
pub proof fn lemma_burst_bounds(marks: Seq<bool>, target: int, tries: nat, s: u64)
    requires
        count_marks(marks) <= target + 7,
    ensures
        burst_channel(marks, target, tries, s).0.len() == marks.len(),
        count_marks(burst_channel(marks, target, tries, s).0) <= target + 7,
    decreases tries,
{
    if count_marks(marks) < target && tries > 0 {
        let s1 = xorshift(s);
        let s2 = xorshift(s1);
        let len = 3 + below(s1, 6);
        let start = below(s2, marks.len() as u32) as int;
        assert(len <= 8);
        lemma_burst_count(marks, start, len as nat);
        lemma_burst_bounds(burst(marks, start, len), target, (tries - 1) as nat, s2);
    }
}

/// Exactly the marked cells come out changed, and all stay in the alphabet.
pub proof fn lemma_marked_change(
    cells: Seq<u8>,
    marks: Seq<bool>,
    alpha: u32,
    s: u64,
    n: nat,
    i: int,
)
    requires
        2 <= alpha <= 256,
        forall|j: int| 0 <= j < cells.len() ==> #[trigger] cells[j] < alpha,
        n <= cells.len(),
        0 <= i < cells.len(),
    ensures
        flip_marked(cells, marks, alpha, s, n).0.len() == cells.len(),
        flip_marked(cells, marks, alpha, s, n).0[i] != cells[i] <==> marks[i] && i < n,
        flip_marked(cells, marks, alpha, s, n).0[i] < alpha,
    decreases n,
{
    if n > 0 {
        let m = (n - 1) as nat;
        let (done, t) = flip_marked(cells, marks, alpha, s, m);
        lemma_marked_change(cells, marks, alpha, s, m, i);
        lemma_marked_change(cells, marks, alpha, s, m, m as int);
        lemma_flip_changes(cells[m as int], alpha, t);
    }
}

/// How a pass through the channel corrupts cells.
#[derive(Clone, Copy, Debug)]
pub enum Corruption {
    /// Every cell on its own, when its draw lies below the threshold.
    Iid { threshold: u64 },
    /// About `target` cells, in bursts.
    Clustered { target: usize },
}

/// Cells and generator state after one pass through the channel.
pub open spec fn pass_through(cells: Seq<u8>, noise: Corruption, alpha: u32, s: u64) -> (Seq<u8>, u64) {
    match noise {
        Corruption::Iid { threshold } => iid_channel(cells, threshold, alpha, s, cells.len()),
        Corruption::Clustered { target } => if target == 0 {
            (cells, s)
        } else {
            let (marks, t) = burst_channel(
                unmarked(cells.len()),
                target as int,
                burst_tries(target as int),
                s,
            );
            flip_marked(cells, marks, alpha, t, cells.len())
        },
    }
}

/// Generator state before pass number `p`.
pub open spec fn state_before_pass(
    cells: Seq<u8>,
    noise: Corruption,
    alpha: u32,
    s: u64,
    p: nat,
) -> u64
    decreases p,
{
    if p == 0 {
        s
    } else {
        pass_through(
            cells,
            noise,
            alpha,
            state_before_pass(cells, noise, alpha, s, (p - 1) as nat),
        ).1
    }
}

/// The machine limits on the cells and the noise.
pub open spec fn noise_fits(cells: Seq<u8>, noise: Corruption) -> bool {
    match noise {
        Corruption::Iid { .. } => true,
        Corruption::Clustered { target } => {
            &&& cells.len() <= u32::MAX
            &&& cells.len() + 8 <= usize::MAX
            &&& target * 6 + 32 <= usize::MAX
            &&& target > 0 ==> cells.len() > 0
        },
    }
}

/// A pass keeps the number of cells and the alphabet.
pub proof fn lemma_pass_keeps_alphabet(cells: Seq<u8>, noise: Corruption, alpha: u32, s: u64)
    requires
        2 <= alpha <= 256,
        forall|j: int| 0 <= j < cells.len() ==> #[trigger] cells[j] < alpha,
    ensures
        pass_through(cells, noise, alpha, s).0.len() == cells.len(),
        forall|j: int|
            0 <= j < cells.len() ==> #[trigger] pass_through(cells, noise, alpha, s).0[j] < alpha,
{
    match noise {
        Corruption::Iid { threshold } => {
            lemma_iid_len(cells, threshold, alpha, s, cells.len());
            assert forall|j: int| 0 <= j < cells.len() implies #[trigger] pass_through(
                cells,
                noise,
                alpha,
                s,
            ).0[j] < alpha by {
                lemma_iid_changes(cells, threshold, alpha, s, cells.len(), j);
            }
        },
        Corruption::Clustered { target } => {
            if target > 0 {
                let (marks, t) = burst_channel(
                    unmarked(cells.len()),
                    target as int,
                    burst_tries(target as int),
                    s,
                );
                lemma_flip_len(cells, marks, alpha, t, cells.len());
                assert forall|j: int| 0 <= j < cells.len() implies #[trigger] pass_through(
                    cells,
                    noise,
                    alpha,
                    s,
                ).0[j] < alpha by {
                    lemma_marked_change(cells, marks, alpha, t, cells.len(), j);
                }
            }
        },
    }
}

/// Replacing marked cells keeps their number.
proof fn lemma_flip_len(cells: Seq<u8>, marks: Seq<bool>, alpha: u32, s: u64, n: nat)
    requires
        n <= cells.len(),
    ensures
        flip_marked(cells, marks, alpha, s, n).0.len() == cells.len(),
    decreases n,
{
    if n > 0 {
        lemma_flip_len(cells, marks, alpha, s, (n - 1) as nat);
    }
}

/// Sends cells through one pass of the channel.
fn corrupt(cells: &Vec<u8>, noise: Corruption, bpc: u32, rng: &mut Rng) -> (rx: Vec<u8>)
    requires
        bpc < 32,
        noise_fits(cells@, noise),
    ensures
        (rx@, final(rng)@) == pass_through(cells@, noise, 1u32 << bpc, old(rng)@),
{
    let mut rx: Vec<u8> = Vec::new();
    let mut i: usize = 0;
    while i < cells.len()
        invariant
            i <= cells@.len(),
            rx@ == cells@.subrange(0, i as int),
        decreases cells@.len() - i,
    {
        rx.push(cells[i]);
        i = i + 1;
        assert(rx@ =~= cells@.subrange(0, i as int));
    }
    assert(rx@ =~= cells@);
    match noise {
        Corruption::Iid { threshold } => corrupt_iid(&mut rx, threshold, bpc, rng),
        Corruption::Clustered { target } => corrupt_clustered(&mut rx, target, bpc, rng),
    }
    rx
}

/// How many of the first `n` passes hold `v` in cell `i`.
pub open spec fn votes_for(passes: Seq<Vec<u8>>, n: nat, i: int, v: int) -> int {
    sum_range(
        0,
        n,
        |p: int|
            if passes[p]@[i] == v {
                1
            } else {
                0
            },
    )
}

/// `w` wins the vote in cell `i` among the values below `alpha`: no value has
/// more votes, the first pass decides ties it takes part in, and the smallest
/// value the others.
pub open spec fn wins(passes: Seq<Vec<u8>>, i: int, alpha: int, w: int) -> bool {
    let n = passes.len();
    let first = passes[0]@[i] as int;
    &&& 0 <= w < alpha
    &&& forall|v: int| 0 <= v < alpha ==> #[trigger] votes_for(passes, n, i, v) <= votes_for(
        passes,
        n,
        i,
        w,
    )
    &&& votes_for(passes, n, i, w) == votes_for(passes, n, i, first) ==> w == first
    &&& w != first ==> forall|v: int|
        0 <= v < w ==> #[trigger] votes_for(passes, n, i, v) < votes_for(passes, n, i, w)
}

/// The passes hold values of the alphabet in every cell of the first one.
pub open spec fn passes_fit(passes: Seq<Vec<u8>>, alpha: int) -> bool {
    forall|p: int, i: int|
        0 <= p < passes.len() && 0 <= i < passes[0]@.len() ==> passes[p]@.len() >= passes[0]@.len()
            && #[trigger] passes[p]@[i] < alpha
}

/// Counts the votes in cell `i`, value by value.
fn count_votes(passes: &Vec<Vec<u8>>, i: usize, alpha: usize) -> (counts: Vec<u16>)
    requires
        0 < passes@.len() <= u16::MAX,
        i < passes@[0]@.len(),
        passes_fit(passes@, alpha as int),
    ensures
        counts@.len() == alpha,
        forall|v: int|
            0 <= v < alpha ==> #[trigger] counts@[v] == votes_for(
                passes@,
                passes@.len(),
                i as int,
                v,
            ),
{
    let mut counts: Vec<u16> = vec![0u16; alpha];
    let mut p: usize = 0;
    while p < passes.len()
        invariant
            passes@.len() <= u16::MAX,
            i < passes@[0]@.len(),
            passes_fit(passes@, alpha as int),
            p <= passes@.len(),
            counts@.len() == alpha,
            forall|v: int|
                0 <= v < alpha ==> #[trigger] counts@[v] == votes_for(
                    passes@,
                    p as nat,
                    i as int,
                    v,
                ),
            forall|v: int| 0 <= v < alpha ==> #[trigger] counts@[v] <= p,
        decreases passes@.len() - p,
    {
        assert(passes@[p as int]@[i as int] < alpha);
        let v: usize = passes[p][i] as usize;
        let ghost before = counts@;
        let c: u16 = counts[v];
        counts.set(v, c + 1);
        proof {
            assert forall|u: int| 0 <= u < alpha implies #[trigger] counts@[u] == votes_for(
                passes@,
                (p + 1) as nat,
                i as int,
                u,
            ) && counts@[u] <= p + 1 by {
                assert(before[u] == votes_for(passes@, p as nat, i as int, u));
                assert(before[u] <= p);
            }
        }
        p = p + 1;
    }
    counts
}

/// A value that no byte holds has no votes.
proof fn lemma_votes_above_byte(passes: Seq<Vec<u8>>, n: nat, i: int, v: int)
    requires
        v > 255,
    ensures
        votes_for(passes, n, i, v) == 0,
    decreases n,
{
    if n > 0 {
        lemma_votes_above_byte(passes, (n - 1) as nat, i, v);
    }
}

/// Votes for two different values are votes of different passes.
proof fn lemma_votes_disjoint(passes: Seq<Vec<u8>>, n: nat, i: int, v: int, w: int)
    requires
        v != w,
    ensures
        votes_for(passes, n, i, v) + votes_for(passes, n, i, w) <= n,
    decreases n,
{
    if n > 0 {
        lemma_votes_disjoint(passes, (n - 1) as nat, i, v, w);
    }
}

/// A value that more than half of the passes hold wins the vote.
pub proof fn lemma_majority_wins(passes: Seq<Vec<u8>>, i: int, alpha: int, v: int, w: int)
    requires
        0 <= v < alpha,
        2 * votes_for(passes, passes.len(), i, v) > passes.len(),
        wins(passes, i, alpha, w),
    ensures
        w == v,
{
    if w != v {
        lemma_votes_disjoint(passes, passes.len(), i, v, w);
    }
}

/// Majority vote over repeated passes, cell by cell.
pub fn vote(passes: &Vec<Vec<u8>>, bpc: u32) -> (out: Vec<u8>)
    requires
        0 < passes@.len() <= u16::MAX,
        bpc < 16,
        passes_fit(passes@, vstd::arithmetic::power2::pow2(bpc as nat) as int),
    ensures
        out@.len() == passes@[0]@.len(),
        forall|i: int|
            0 <= i < out@.len() ==> wins(
                passes@,
                i,
                vstd::arithmetic::power2::pow2(bpc as nat) as int,
                #[trigger] out@[i] as int,
            ),
{
    proof {
        vstd::arithmetic::power2::lemma2_to64();
        vstd::arithmetic::power2::lemma_pow2_pos(bpc as nat);
        vstd::arithmetic::power2::lemma_pow2_strictly_increases(bpc as nat, 16);
        vstd::bits::lemma_u32_shl_is_mul(1, bpc);
    }
    let alpha: usize = (1u32 << bpc) as usize;
    let n: usize = passes[0].len();
    let mut out: Vec<u8> = Vec::new();
    let mut i: usize = 0;
    while i < n
        invariant
            0 < passes@.len() <= u16::MAX,
            alpha == vstd::arithmetic::power2::pow2(bpc as nat),
            passes_fit(passes@, alpha as int),
            n == passes@[0]@.len(),
            i <= n,
            out@.len() == i,
            forall|j: int|
                0 <= j < i ==> wins(passes@, j, alpha as int, #[trigger] out@[j] as int),
        decreases n - i,
    {
        let counts: Vec<u16> = count_votes(passes, i, alpha);
        assert(passes@[0]@[i as int] < alpha);
        let first: usize = passes[0][i] as usize;
        let mut best: usize = first;
        let mut v: usize = 0;
        while v < alpha
            invariant
                counts@.len() == alpha,
                first < alpha,
                best < alpha,
                v <= alpha,
                forall|u: int| 0 <= u < v ==> #[trigger] counts@[u] <= counts@[best as int],
                counts@[first as int] <= counts@[best as int],
                counts@[best as int] == counts@[first as int] ==> best == first,
                best != first ==> best < v && forall|u: int|
                    0 <= u < best ==> #[trigger] counts@[u] < counts@[best as int],
            decreases alpha - v,
        {
            if counts[v] > counts[best] {
                best = v;
            }
            v = v + 1;
        }
        proof {
            assert forall|u: int| 0 <= u < alpha implies #[trigger] votes_for(
                passes@,
                passes@.len(),
                i as int,
                u,
            ) <= votes_for(passes@, passes@.len(), i as int, best as int) by {
                assert(counts@[u] <= counts@[best as int]);
            }
            if best != first {
                assert forall|u: int| 0 <= u < best implies #[trigger] votes_for(
                    passes@,
                    passes@.len(),
                    i as int,
                    u,
                ) < votes_for(passes@, passes@.len(), i as int, best as int) by {
                    assert(counts@[u] < counts@[best as int]);
                }
            }
            if best > 255 {
                // No pass holds such a value, so it has no votes and cannot beat the first pass.
                lemma_votes_above_byte(passes@, passes@.len(), i as int, best as int);
                assert(counts@[best as int] == 0);
                assert(counts@[first as int] == 0);
            }
        }
        out.push(best as u8);
        i = i + 1;
    }
    out
}

/// Receives a frame over a live channel: one pass as it comes, or the
/// majority vote over several.
pub fn receive_voted(
    clean: &Vec<u8>,
    votes: usize,
    noise: Corruption,
    bpc: u32,
    rng: &mut Rng,
) -> (rx: Vec<u8>)
    requires
        votes <= u16::MAX,
        1 <= bpc <= 8,
        noise_fits(clean@, noise),
        forall|j: int|
            0 <= j < clean@.len() ==> #[trigger] clean@[j] < vstd::arithmetic::power2::pow2(
                bpc as nat,
            ),
    ensures
        rx@.len() == clean@.len(),
        votes <= 1 ==> (rx@, final(rng)@) == pass_through(clean@, noise, 1u32 << bpc, old(rng)@),
        votes > 1 ==> final(rng)@ == state_before_pass(
            clean@,
            noise,
            1u32 << bpc,
            old(rng)@,
            votes as nat,
        ),
        votes > 1 ==> exists|passes: Seq<Vec<u8>>|
            {
                &&& passes.len() == votes
                &&& forall|p: int|
                    0 <= p < votes ==> (#[trigger] passes[p])@ == pass_through(
                        clean@,
                        noise,
                        1u32 << bpc,
                        state_before_pass(clean@, noise, 1u32 << bpc, old(rng)@, p as nat),
                    ).0
                &&& forall|i: int|
                    0 <= i < rx@.len() ==> wins(
                        passes,
                        i,
                        vstd::arithmetic::power2::pow2(bpc as nat) as int,
                        #[trigger] rx@[i] as int,
                    )
            },
{
    let ghost alpha = 1u32 << bpc;
    let ghost start = rng@;
    proof {
        vstd::arithmetic::power2::lemma2_to64();
        vstd::arithmetic::power2::lemma_pow2_pos(bpc as nat);
        if bpc < 8 {
            vstd::arithmetic::power2::lemma_pow2_strictly_increases(bpc as nat, 8);
        }
        if bpc > 1 {
            vstd::arithmetic::power2::lemma_pow2_strictly_increases(1, bpc as nat);
        }
        vstd::bits::lemma_u32_shl_is_mul(1, bpc);
        lemma_pass_keeps_alphabet(clean@, noise, alpha, start);
    }
    if votes <= 1 {
        return corrupt(clean, noise, bpc, rng);
    }
    let mut passes: Vec<Vec<u8>> = Vec::new();
    let mut p: usize = 0;
    while p < votes
        invariant
            1 <= bpc <= 8,
            alpha == 1u32 << bpc,
            2 <= alpha <= 256,
            noise_fits(clean@, noise),
            forall|j: int| 0 <= j < clean@.len() ==> #[trigger] clean@[j] < alpha,
            p <= votes,
            passes@.len() == p,
            rng@ == state_before_pass(clean@, noise, alpha, start, p as nat),
            forall|q: int|
                0 <= q < p ==> (#[trigger] passes@[q])@ == pass_through(
                    clean@,
                    noise,
                    alpha,
                    state_before_pass(clean@, noise, alpha, start, q as nat),
                ).0,
            forall|q: int, i: int|
                0 <= q < p && 0 <= i < clean@.len() ==> passes@[q]@.len() == clean@.len()
                    && #[trigger] passes@[q]@[i] < alpha,
            forall|q: int| 0 <= q < p ==> (#[trigger] passes@[q])@.len() == clean@.len(),
        decreases votes - p,
    {
        proof {
            lemma_pass_keeps_alphabet(clean@, noise, alpha, rng@);
        }
        let rx: Vec<u8> = corrupt(clean, noise, bpc, rng);
        passes.push(rx);
        p = p + 1;
    }
    let out: Vec<u8> = vote(&passes, bpc);
    assert(passes@.len() == votes);
    out
}

/// Repeats outvote errors: a cell that fewer than half of the passes corrupt
/// comes out as it was sent.
pub proof fn lemma_minority_errors_corrected(
    passes: Seq<Vec<u8>>,
    sent: Seq<u8>,
    i: int,
    alpha: int,
    w: int,
)
    requires
        sent[i] < alpha,
        2 * (passes.len() - votes_for(passes, passes.len(), i, sent[i] as int)) < passes.len(),
        wins(passes, i, alpha, w),
    ensures
        w == sent[i],
{
    lemma_majority_wins(passes, i, alpha, sent[i] as int, w);
}

/// Blocks of whole rows as cells and data bytes, from rows and data bytes.
pub fn v1_blocks(layout: &[(usize, usize)]) -> (blocks: Vec<(usize, usize)>)
    requires
        forall|i: int|
            0 <= i < layout@.len() ==> (#[trigger] layout@[i]).0 * PAYLOAD_COLS <= usize::MAX,
    ensures
        blocks@.len() == layout@.len(),
        forall|i: int|
            0 <= i < blocks@.len() ==> (#[trigger] blocks@[i]).0 == layout@[i].0 * PAYLOAD_COLS
                && blocks@[i].1 == layout@[i].1,
{
    let mut blocks: Vec<(usize, usize)> = Vec::new();
    let mut i: usize = 0;
    while i < layout.len()
        invariant
            forall|i: int|
                0 <= i < layout@.len() ==> (#[trigger] layout@[i]).0 * PAYLOAD_COLS <= usize::MAX,
            i <= layout@.len(),
            blocks@.len() == i,
            forall|j: int|
                0 <= j < i ==> (#[trigger] blocks@[j]).0 == layout@[j].0 * PAYLOAD_COLS
                    && blocks@[j].1 == layout@[j].1,
        decreases layout@.len() - i,
    {
        let (rows, data) = layout[i];
        assert(layout@[i as int].0 * PAYLOAD_COLS <= usize::MAX);
        blocks.push((rows * PAYLOAD_COLS, data));
        i = i + 1;
    }
    blocks
}

/// Symbol bytes that fill a test frame of `cap` bytes behind its header.
pub fn filler_symbols(cap: usize, header_len: usize) -> (bytes: Vec<u8>)
    requires
        cap * 31 + 7 <= usize::MAX,
    ensures
        bytes@.len() == if cap > header_len {
            cap - header_len
        } else {
            0
        },
        forall|i: int| 0 <= i < bytes@.len() ==> #[trigger] bytes@[i] == (i * 31 + 7) % 256,
        bytes@.len() > 0 ==> bytes@[0] == 7,
        forall|i: int| 0 < i < bytes@.len() ==> #[trigger] bytes@[i] == (bytes@[i - 1] + 31) % 256,
{
    let n: usize = cap.saturating_sub(header_len);
    let mut bytes: Vec<u8> = Vec::new();
    let mut i: usize = 0;
    while i < n
        invariant
            n <= cap,
            cap * 31 + 7 <= usize::MAX,
            i <= n,
            bytes@.len() == i,
            forall|j: int| 0 <= j < i ==> #[trigger] bytes@[j] == (j * 31 + 7) % 256,
        decreases n - i,
    {
        bytes.push(((i * 31 + 7) % 256) as u8);
        i = i + 1;
    }
    proof {
        assert forall|i: int| 0 < i < bytes@.len() implies #[trigger] bytes@[i] == (bytes@[i - 1]
            + 31) % 256 by {
            lemma_filler_moves(i);
        }
    }
    bytes
}

/// The filler moves on by 31.
proof fn lemma_filler_moves(i: int)
    ensures
        (i * 31 + 7) % 256 == (((i - 1) * 31 + 7) % 256 + 31) % 256,
{
}

/// What replaces a cell. In an alphabet of two it is the other value, and no
/// draw is made. In a larger one it is the draw; only where the draw is the
/// value itself it is the next value, and behind the last one the first.
pub proof fn lemma_flip_value(c: u8, alpha: u32, s: u64)
    requires
        2 <= alpha <= 256,
        c < alpha,
    ensures
        alpha == 2 ==> flipped(c, alpha, s) == 1 - c && after_flip(alpha, s) == s,
        alpha > 2 ==> after_flip(alpha, s) == xorshift(s),
        alpha > 2 && output(xorshift(s)) % (alpha as u64) != c ==> flipped(c, alpha, s) == output(
            xorshift(s),
        ) % (alpha as u64),
        alpha > 2 && output(xorshift(s)) % (alpha as u64) == c ==> flipped(c, alpha, s) == (if c
            + 1 == alpha {
            0
        } else {
            c + 1
        }),
{
    if alpha == 2 {
        lemma_flip_changes(c, alpha, s);
    } else {
        let v = below(xorshift(s), alpha);
        if v + 1 < alpha {
            vstd::arithmetic::div_mod::lemma_small_mod((v + 1) as nat, alpha as nat);
        } else {
            vstd::arithmetic::div_mod::lemma_mod_self_0(alpha as int);
        }
    }
}

/// A channel without noise changes nothing and makes one draw per cell.
pub proof fn lemma_iid_silent(cells: Seq<u8>, alpha: u32, s: u64, n: nat)
    requires
        n <= cells.len(),
    ensures
        iid_channel(cells, 0, alpha, s, n) == (cells, state_after(s, n)),
    decreases n,
{
    if n > 0 {
        lemma_iid_silent(cells, alpha, s, (n - 1) as nat);
    }
}

/// With one bit per cell the draws do not depend on what they do: cell `i` has
/// the draw number `i + 1`, and is inverted exactly when the high 53 bits of
/// the draw lie below the threshold.
pub proof fn lemma_iid_binary(cells: Seq<u8>, threshold: u64, s: u64, n: nat, i: int)
    requires
        forall|j: int| 0 <= j < cells.len() ==> #[trigger] cells[j] < 2,
        0 <= i < n <= cells.len(),
    ensures
        iid_channel(cells, threshold, 2, s, n).1 == state_after(s, n),
        iid_channel(cells, threshold, 2, s, n).0[i] == (if output(state_after(s, (i + 1) as nat))
            / 2048 < threshold {
            1 - cells[i]
        } else {
            cells[i] as int
        }),
    decreases n,
{
    let m = (n - 1) as nat;
    lemma_iid_binary_state(cells, threshold, s, n);
    lemma_iid_binary_state(cells, threshold, s, m);
    lemma_iid_len(cells, threshold, 2, s, m);
    lemma_iid_rest(cells, threshold, 2, s, m);
    if i < m {
        lemma_iid_binary(cells, threshold, s, m, i);
    } else {
        let u = state_after(s, n);
        vstd::arithmetic::power2::lemma2_to64();
        vstd::bits::lemma_u64_shr_is_div(output(u), 11);
        lemma_flip_value(cells[i], 2, u);
    }
}

/// With one bit per cell every cell takes one draw.
proof fn lemma_iid_binary_state(cells: Seq<u8>, threshold: u64, s: u64, n: nat)
    ensures
        iid_channel(cells, threshold, 2, s, n).1 == state_after(s, n),
    decreases n,
{
    if n > 0 {
        lemma_iid_binary_state(cells, threshold, s, (n - 1) as nat);
    }
}

/// A burst marks the cells it covers and leaves all others as they were.
pub proof fn lemma_burst_covers(marks: Seq<bool>, start: int, len: int, j: int)
    requires
        0 <= j < marks.len(),
    ensures
        burst(marks, start, len).len() == marks.len(),
        start <= j < start + len ==> burst(marks, start, len)[j],
        j < start || j >= start + len ==> burst(marks, start, len)[j] == marks[j],
{
}

/// One burst: its length is 3 and the first draw modulo 6, its place the
/// second draw modulo the number of cells, and the rest of the tries goes on
/// from there.
pub proof fn lemma_one_burst(marks: Seq<bool>, target: int, tries: nat, s: u64)
    requires
        count_marks(marks) < target,
        0 < marks.len() <= u32::MAX,
    ensures
        ({
            let len = 3 + output(state_after(s, 1)) % 6;
            let start = output(state_after(s, 2)) as int % marks.len() as int;
            let after = Seq::new(marks.len(), |j: int| marks[j] || start <= j < start + len);
            burst_channel(marks, target, tries + 1, s) == burst_channel(
                after,
                target,
                tries,
                state_after(s, 2),
            )
        }),
{
    reveal_with_fuel(state_after, 3);
    assert((tries + 1 - 1) as nat == tries);
    let len = 3 + output(state_after(s, 1)) % 6;
    let start = output(state_after(s, 2)) as int % marks.len() as int;
    let after = Seq::new(marks.len(), |j: int| marks[j] || start <= j < start + len);
    assert(after =~= burst(marks, start, len));
}

/// Bursts are thrown until enough cells are marked or the tries are used up,
/// two draws each: where marks are missing in the end, all tries were used,
/// and with enough marks from the start none is.
pub proof fn lemma_bursts_until_target(marks: Seq<bool>, target: int, tries: nat, s: u64)
    ensures
        count_marks(burst_channel(marks, target, tries, s).0) < target ==> burst_channel(
            marks,
            target,
            tries,
            s,
        ).1 == state_after(s, 2 * tries),
        count_marks(marks) >= target ==> burst_channel(marks, target, tries, s) == (marks, s),
        forall|j: int|
            0 <= j < marks.len() && marks[j] ==> #[trigger] burst_channel(
                marks,
                target,
                tries,
                s,
            ).0[j],
        burst_channel(marks, target, tries, s).0.len() == marks.len(),
    decreases tries,
{
    if count_marks(marks) < target && tries > 0 {
        let s2 = xorshift(xorshift(s));
        let len = 3 + below(xorshift(s), 6);
        let start = below(s2, marks.len() as u32) as int;
        let m = (tries - 1) as nat;
        let after = burst(marks, start, len);
        lemma_bursts_until_target(after, target, m, s2);
        lemma_steps_add(s, 2, 2 * m);
        reveal_with_fuel(state_after, 3);
        assert(2 * tries == 2 + 2 * m);
        assert forall|j: int| 0 <= j < marks.len() && marks[j] implies #[trigger] burst_channel(
            marks,
            target,
            tries,
            s,
        ).0[j] by {
            assert(after[j]);
            assert(burst_channel(after, target, m, s2).0[j]);
        }
    }
}

/// Six tries for every cell of the target, and 32 more.
pub proof fn lemma_tries_grow(target: int)
    requires
        target >= 0,
    ensures
        burst_tries(0) == 32,
        burst_tries(target + 1) == burst_tries(target) + 6,
{
}

/// Marks are counted one by one.
pub proof fn lemma_marks_counted(marks: Seq<bool>, last: bool)
    ensures
        count_marks(Seq::empty()) == 0,
        count_marks(marks.push(last)) == count_marks(marks) + if last {
            1int
        } else {
            0
        },
{
    let f = |j: int|
        if marks[j] {
            1int
        } else {
            0
        };
    let g = |j: int|
        if marks.push(last)[j] {
            1int
        } else {
            0
        };
    lemma_sum_range_congruent(0, marks.len(), f, g);
}

/// A pass without noise hands the cells on as they are.
pub proof fn lemma_silent_pass(cells: Seq<u8>, alpha: u32, s: u64)
    ensures
        pass_through(cells, Corruption::Iid { threshold: 0 }, alpha, s) == (
            cells,
            state_after(s, cells.len()),
        ),
        pass_through(cells, Corruption::Clustered { target: 0 }, alpha, s) == (cells, s),
{
    lemma_iid_silent(cells, alpha, s, cells.len());
}

/// In a pass with bursts exactly the cells that a burst hit come out changed.
pub proof fn lemma_clustered_pass_changes(
    cells: Seq<u8>,
    target: usize,
    alpha: u32,
    s: u64,
    i: int,
)
    requires
        2 <= alpha <= 256,
        forall|j: int| 0 <= j < cells.len() ==> #[trigger] cells[j] < alpha,
        0 <= i < cells.len(),
        target > 0,
    ensures
        pass_through(cells, Corruption::Clustered { target }, alpha, s).0[i] != cells[i]
            <==> burst_channel(
            Seq::new(cells.len(), |j: int| false),
            target as int,
            (6 * target + 32) as nat,
            s,
        ).0[i],
{
    let marks = unmarked(cells.len());
    let (hit, t) = burst_channel(marks, target as int, burst_tries(target as int), s);
    assert(marks =~= Seq::new(cells.len(), |j: int| false));
    lemma_marked_change(cells, hit, alpha, t, cells.len(), i);
}

/// The passes go on with one generator: each begins where the one before it ended.
pub proof fn lemma_passes_follow(cells: Seq<u8>, noise: Corruption, alpha: u32, s: u64, p: nat)
    ensures
        state_before_pass(cells, noise, alpha, s, 0) == s,
        state_before_pass(cells, noise, alpha, s, p + 1) == pass_through(
            cells,
            noise,
            alpha,
            state_before_pass(cells, noise, alpha, s, p),
        ).1,
{
    assert((p + 1 - 1) as nat == p);
}

/// Every pass has one vote in every cell.
pub proof fn lemma_one_vote_each(passes: Seq<Vec<u8>>, n: nat, i: int, v: int)
    ensures
        votes_for(passes, 0, i, v) == 0,
        votes_for(passes, n + 1, i, v) == votes_for(passes, n, i, v) + if passes[n as int]@[i]
            == v {
            1int
        } else {
            0
        },
{
}

/// The vote has one winner. The value of the first pass wins unless another
/// value has more votes; the winner is then the smallest of the values with
/// the most votes. A single pass decides alone, and the first of two does.
pub proof fn lemma_winner(passes: Seq<Vec<u8>>, i: int, alpha: int, w: int, other: int)
    requires
        passes.len() > 0,
        passes[0]@[i] < alpha,
        wins(passes, i, alpha, w),
    ensures
        wins(passes, i, alpha, other) ==> other == w,
        (forall|v: int|
            0 <= v < alpha ==> #[trigger] votes_for(passes, passes.len(), i, v) <= votes_for(
                passes,
                passes.len(),
                i,
                passes[0]@[i] as int,
            )) ==> w == passes[0]@[i],
        w != passes[0]@[i] ==> votes_for(passes, passes.len(), i, w) > votes_for(
            passes,
            passes.len(),
            i,
            passes[0]@[i] as int,
        ),
        w != passes[0]@[i] && 0 <= other < w ==> votes_for(passes, passes.len(), i, other)
            < votes_for(passes, passes.len(), i, w),
        passes.len() <= 2 ==> w == passes[0]@[i],
{
    let n = passes.len();
    let first = passes[0]@[i] as int;
    assert(votes_for(passes, n, i, first) <= votes_for(passes, n, i, w));
    if wins(passes, i, alpha, other) {
        assert(votes_for(passes, n, i, other) == votes_for(passes, n, i, w));
    }
    if n <= 2 && w != first {
        reveal_with_fuel(sum_range, 3);
        assert(votes_for(passes, n, i, first) >= 1);
        assert(votes_for(passes, n, i, w) <= 1);
    }
}

/// The leading blocks that hold `need` bytes end with the first block that
/// brings the data up to `need`. At least one block is taken, and all of them
/// where even all do not hold as much.
pub proof fn lemma_cover_is_shortest(blocks: Seq<(usize, usize)>, need: int, n: nat, m: nat)
    requires
        covers(blocks, need, n),
        0 < m <= blocks.len(),
        m > 1 ==> block_data(blocks, (m - 1) as nat) < need,
    ensures
        block_data(blocks, m) >= need ==> n == m,
        m == blocks.len() ==> n == m,
        n >= 1,
        forall|other: nat| #[trigger] covers(blocks, need, other) ==> other == n,
{
    lemma_block_data_grows(blocks);
    assert forall|other: nat| #[trigger] covers(blocks, need, other) implies other == n by {
        if other < n {
            assert(block_data(blocks, other) < need);
        } else if n < other {
            assert(block_data(blocks, n) < need);
        }
    }
    let k = (m - 1) as nat;
    if n < m && n >= 1 {
        assert(block_data(blocks, n) <= block_data(blocks, k));
    }
    if m < n {
        assert(block_data(blocks, m) < need);
    }
}

/// More blocks hold no less data.
proof fn lemma_block_data_grows(blocks: Seq<(usize, usize)>)
    ensures
        forall|a: nat, b: nat|
            a <= b <= blocks.len() ==> #[trigger] block_data(blocks, a) <= #[trigger] block_data(
                blocks,
                b,
            ),
{
    assert forall|a: nat, b: nat| a <= b <= blocks.len() implies #[trigger] block_data(blocks, a)
        <= #[trigger] block_data(blocks, b) by {
        lemma_sum_prefix(a, b, |i: int| blocks[i].1 as int);
    }
}

/// Blocks are added up from the first on.
pub proof fn lemma_blocks_add(blocks: Seq<(usize, usize)>, n: nat)
    requires
        n < blocks.len(),
    ensures
        block_cells(blocks, 0) == 0,
        block_data(blocks, 0) == 0,
        block_cells(blocks, n + 1) == block_cells(blocks, n) + blocks[n as int].0,
        block_data(blocks, n + 1) == block_data(blocks, n) + blocks[n as int].1,
{
}

} // verus!
